//! The bookkeeping model of the staged stream: what the single generation pass
//! sorts into the capture list, the quiet-move groups and the underpromotion
//! reservoir, and the multiset of moves a stream state still has to yield.

use vstd::prelude::*;
use vstd::multiset::Multiset;
use crate::model::{
    bb_moves, bb_moves_upto, bit, cap_score, group_wf, is_underpromotion, lemma_bb_moves_props,
    square_moves, LegalMoves, Move, MoveGroup, Piece,
};

verus! {

/// The multiset of moves in a sequence.
pub open spec fn mset_of(s: Seq<Move>) -> Multiset<Move>
    decreases s.len(),
{
    if s.len() == 0 {
        Multiset::empty()
    } else {
        mset_of(s.drop_last()).insert(s.last())
    }
}

/// The multiset of moves carried by a sequence of scored capture candidates.
pub open spec fn caps_moves(s: Seq<(Move, i8)>) -> Multiset<Move>
    decreases s.len(),
{
    if s.len() == 0 {
        Multiset::empty()
    } else {
        caps_moves(s.drop_last()).insert(s.last().0)
    }
}

/// What the quiet drainer will eventually yield (directly or through the
/// underpromotion reservoir) out of a raw per-origin move sequence: every move
/// except those equal to the hash move.
pub open spec fn emit_mset(s: Seq<Move>, hm: Option<Move>) -> Multiset<Move>
    decreases s.len(),
{
    if s.len() == 0 {
        Multiset::empty()
    } else if Some(s[0]) == hm {
        emit_mset(s.drop_first(), hm)
    } else {
        emit_mset(s.drop_first(), hm).insert(s[0])
    }
}

/// The score an attacker earns for capturing what stands on the target square.
pub open spec fn victim_score(att: Piece, o: Option<Piece>) -> i8 {
    match o {
        Some(v) => cap_score(att, v) as i8,
        None => 0,
    }
}

/// The scored capture candidates the generation pass appends for one raw
/// capture sequence: hash-move occurrences are excluded, underpromotions are
/// diverted, everything else is scored by victim and attacker.
pub open spec fn cap_pairs_of(s: Seq<Move>, att: Piece, occ: Seq<Option<Piece>>, hm: Option<Move>) -> Seq<(Move, i8)>
    decreases s.len(),
{
    if s.len() == 0 {
        Seq::empty()
    } else {
        let rest = cap_pairs_of(s.drop_last(), att, occ, hm);
        let m = s.last();
        if Some(m) == hm || is_underpromotion(m) {
            rest
        } else {
            rest + seq![(m, victim_score(att, occ[m.to as int]))]
        }
    }
}

/// The underpromotions the generation pass diverts out of one raw capture
/// sequence, in discovery order.
pub open spec fn under_seq_of(s: Seq<Move>, hm: Option<Move>) -> Seq<Move>
    decreases s.len(),
{
    if s.len() == 0 {
        Seq::empty()
    } else {
        let rest = under_seq_of(s.drop_last(), hm);
        let m = s.last();
        if Some(m) != hm && is_underpromotion(m) {
            rest + seq![m]
        } else {
            rest
        }
    }
}

/// The killer hint is legal within this group: same origin, destination among
/// the group's destinations.
pub open spec fn killer_hits(g: MoveGroup, k: Move) -> bool {
    k.from == g.from && bit(g.to, k.to as int)
}

/// The group's destinations after the killer's destination is pruned: pruned
/// only when the killer is legal here and carries no promotion.
pub open spec fn pruned_to(g: MoveGroup, k: Move) -> u64 {
    if killer_hits(g, k) && k.promotion is None {
        g.to & !(1u64 << (k.to as u64))
    } else {
        g.to
    }
}

pub open spec fn quiet_bb(g: MoveGroup, k: Move, enemy: u64) -> u64 {
    pruned_to(g, k) & !enemy
}

pub open spec fn cap_bb(g: MoveGroup, k: Move, enemy: u64) -> u64 {
    pruned_to(g, k) & enemy
}

/// The raw quiet-move sequence stored for one group.
pub open spec fn group_quiet_moves(g: MoveGroup, k: Move, enemy: u64) -> Seq<Move> {
    bb_moves(g.piece, g.from, quiet_bb(g, k, enemy))
}

/// The raw capture sequence the pass scans for one group.
pub open spec fn group_cap_list(g: MoveGroup, k: Move, enemy: u64) -> Seq<Move> {
    bb_moves(g.piece, g.from, cap_bb(g, k, enemy))
}

/// The capture candidates one group contributes: the killer first (score 0,
/// when legal here), then the group's scored captures.
pub open spec fn group_pairs(g: MoveGroup, enemy: u64, occ: Seq<Option<Piece>>, hm: Option<Move>, k: Move) -> Seq<(Move, i8)> {
    (if killer_hits(g, k) {
        seq![(k, 0i8)]
    } else {
        Seq::empty()
    }) + cap_pairs_of(group_cap_list(g, k, enemy), g.piece, occ, hm)
}

/// The whole capture-candidate list the single pass builds, in build order.
pub open spec fn built_pairs(gs: Seq<MoveGroup>, enemy: u64, occ: Seq<Option<Piece>>, hm: Option<Move>, k: Move) -> Seq<(Move, i8)>
    decreases gs.len(),
{
    if gs.len() == 0 {
        Seq::empty()
    } else {
        built_pairs(gs.drop_last(), enemy, occ, hm, k) + group_pairs(gs.last(), enemy, occ, hm, k)
    }
}

/// The underpromotions the single pass diverts, in build order.
pub open spec fn built_under(gs: Seq<MoveGroup>, enemy: u64, hm: Option<Move>, k: Move) -> Seq<Move>
    decreases gs.len(),
{
    if gs.len() == 0 {
        Seq::empty()
    } else {
        built_under(gs.drop_last(), enemy, hm, k) + under_seq_of(group_cap_list(gs.last(), k, enemy), hm)
    }
}

/// What the quiet stage will eventually yield out of all groups.
pub open spec fn built_quiet_rem(gs: Seq<MoveGroup>, enemy: u64, hm: Option<Move>, k: Move) -> Multiset<Move>
    decreases gs.len(),
{
    if gs.len() == 0 {
        Multiset::empty()
    } else {
        built_quiet_rem(gs.drop_last(), enemy, hm, k).add(
            emit_mset(group_quiet_moves(gs.last(), k, enemy), hm),
        )
    }
}

/// Everything the stages after the hash move will yield, as a multiset.
pub open spec fn pend_all(gs: Seq<MoveGroup>, enemy: u64, occ: Seq<Option<Piece>>, hm: Option<Move>, k: Move) -> Multiset<Move> {
    caps_moves(built_pairs(gs, enemy, occ, hm, k)).add(
        mset_of(built_under(gs, enemy, hm, k)),
    ).add(built_quiet_rem(gs, enemy, hm, k))
}

pub open spec fn hm_mset(hm: Option<Move>) -> Multiset<Move> {
    match hm {
        Some(h) => Multiset::singleton(h),
        None => Multiset::empty(),
    }
}

/// The inert killer substitute: a move from a square to itself never matches
/// a real generated group.
pub open spec fn sentinel() -> Move {
    Move { from: 0, to: 0, promotion: None }
}

/// The killer actually stored: the sentinel when the killer aliases the hash
/// move, the killer itself otherwise.
pub open spec fn norm_killer(hm: Option<Move>, k: Move) -> Move {
    if Some(k) == hm {
        sentinel()
    } else {
        k
    }
}

/// The multiset of all legal moves the groups describe.
pub open spec fn legal_mset(gs: Seq<MoveGroup>) -> Multiset<Move>
    decreases gs.len(),
{
    if gs.len() == 0 {
        Multiset::empty()
    } else {
        legal_mset(gs.drop_last()).add(
            mset_of(bb_moves(gs.last().piece, gs.last().from, gs.last().to)),
        )
    }
}

/// Everything a fresh stream over `legal`, with hints `hm` and `k`, will yield
/// over a full drain.
pub open spec fn stream_total(legal: LegalMoves, hm: Option<Move>, k: Move) -> Multiset<Move> {
    hm_mset(hm).add(
        pend_all(legal.groups@, legal.enemy, legal.occupants@, hm, norm_killer(hm, k)),
    )
}

pub proof fn lemma_mset_singleton(m: Move)
    ensures
        mset_of(seq![m]) == Multiset::empty().insert(m),
{
    assert(seq![m].drop_last() =~= Seq::<Move>::empty());
    assert(seq![m].last() == m);
    assert(mset_of(Seq::<Move>::empty()) == Multiset::<Move>::empty());
}

pub proof fn lemma_caps_singleton(c: (Move, i8))
    ensures
        caps_moves(seq![c]) == Multiset::empty().insert(c.0),
{
    assert(seq![c].drop_last() =~= Seq::<(Move, i8)>::empty());
    assert(seq![c].last() == c);
    assert(caps_moves(Seq::<(Move, i8)>::empty()) == Multiset::<Move>::empty());
}

pub proof fn lemma_mset_push(s: Seq<Move>, x: Move)
    ensures
        mset_of(s.push(x)) == mset_of(s).insert(x),
{
    assert(s.push(x).drop_last() =~= s);
    assert(s.push(x).last() == x);
}

pub proof fn lemma_caps_push(s: Seq<(Move, i8)>, c: (Move, i8))
    ensures
        caps_moves(s.push(c)) == caps_moves(s).insert(c.0),
{
    assert(s.push(c).drop_last() =~= s);
    assert(s.push(c).last() == c);
}

pub proof fn lemma_mset_concat(a: Seq<Move>, b: Seq<Move>)
    ensures
        mset_of(a + b) == mset_of(a).add(mset_of(b)),
    decreases b.len(),
{
    if b.len() == 0 {
        assert(a + b =~= a);
        assert(mset_of(a + b) =~= mset_of(a).add(mset_of(b)));
    } else {
        lemma_mset_concat(a, b.drop_last());
        assert((a + b).drop_last() =~= a + b.drop_last());
        assert((a + b).last() == b.last());
        assert(mset_of(a + b) =~= mset_of(a).add(mset_of(b)));
    }
}

pub proof fn lemma_caps_concat(a: Seq<(Move, i8)>, b: Seq<(Move, i8)>)
    ensures
        caps_moves(a + b) == caps_moves(a).add(caps_moves(b)),
    decreases b.len(),
{
    if b.len() == 0 {
        assert(a + b =~= a);
        assert(caps_moves(a + b) =~= caps_moves(a).add(caps_moves(b)));
    } else {
        lemma_caps_concat(a, b.drop_last());
        assert((a + b).drop_last() =~= a + b.drop_last());
        assert((a + b).last() == b.last());
        assert(caps_moves(a + b) =~= caps_moves(a).add(caps_moves(b)));
    }
}

pub proof fn lemma_caps_contains(s: Seq<(Move, i8)>, i: int)
    requires
        0 <= i < s.len(),
    ensures
        caps_moves(s).count(s[i].0) >= 1,
    decreases s.len(),
{
    if i == s.len() - 1 {
    } else {
        lemma_caps_contains(s.drop_last(), i);
        assert(s.drop_last()[i] == s[i]);
    }
}

pub proof fn lemma_caps_update(s: Seq<(Move, i8)>, i: int, x: (Move, i8))
    requires
        0 <= i < s.len(),
    ensures
        caps_moves(s.update(i, x)) == caps_moves(s).remove(s[i].0).insert(x.0),
    decreases s.len(),
{
    lemma_caps_contains(s, i);
    if i == s.len() - 1 {
        assert(s.update(i, x).drop_last() =~= s.drop_last());
        assert(s.update(i, x).last() == x);
        assert(caps_moves(s.update(i, x)) =~= caps_moves(s).remove(s[i].0).insert(x.0));
    } else {
        lemma_caps_update(s.drop_last(), i, x);
        assert(s.update(i, x).drop_last() =~= s.drop_last().update(i, x));
        assert(s.update(i, x).last() == s.last());
        assert(s.drop_last()[i] == s[i]);
        lemma_caps_contains(s.drop_last(), i);
        assert(caps_moves(s.update(i, x)) =~= caps_moves(s).remove(s[i].0).insert(x.0));
    }
}

/// Removing a capture candidate by swapping in the last entry and truncating
/// removes exactly one copy of its move from the candidate multiset.
pub proof fn lemma_caps_swap_remove(s: Seq<(Move, i8)>, i: int)
    requires
        0 <= i < s.len(),
    ensures
        caps_moves(s.update(i, s.last()).drop_last()) == caps_moves(s).remove(s[i].0),
{
    lemma_caps_contains(s, i);
    if i == s.len() - 1 {
        assert(s.update(i, s.last()) =~= s);
        assert(caps_moves(s.update(i, s.last()).drop_last()) =~= caps_moves(s).remove(s[i].0));
    } else {
        lemma_caps_update(s, i, s.last());
        let t = s.update(i, s.last());
        assert(caps_moves(t) == caps_moves(t.drop_last()).insert(t.last().0));
        assert(t.last() == s.last());
        assert(caps_moves(t.drop_last()) =~= caps_moves(s).remove(s[i].0)) by {
            let a = caps_moves(t.drop_last());
            let b = caps_moves(s).remove(s[i].0);
            assert(a.insert(s.last().0) == b.insert(s.last().0));
            assert forall|v: Move| a.count(v) == b.count(v) by {
                assert(a.insert(s.last().0).count(v) == b.insert(s.last().0).count(v));
            }
        }
    }
}

/// Advancing the quiet cursor by one: the not-yet-yielded part loses the move
/// under the cursor, unless that move is the hash move.
pub proof fn lemma_emit_skip_step(s: Seq<Move>, j: int, hm: Option<Move>)
    requires
        0 <= j < s.len(),
    ensures
        emit_mset(s.skip(j), hm) == if Some(s[j]) == hm {
            emit_mset(s.skip(j + 1), hm)
        } else {
            emit_mset(s.skip(j + 1), hm).insert(s[j])
        },
{
    assert(s.skip(j).len() == s.len() - j);
    assert(s.skip(j)[0] == s[j]);
    assert(s.skip(j).drop_first() =~= s.skip(j + 1));
}

pub proof fn lemma_emit_unfold_last(s: Seq<Move>, hm: Option<Move>)
    requires
        s.len() > 0,
    ensures
        emit_mset(s, hm) == if Some(s.last()) == hm {
            emit_mset(s.drop_last(), hm)
        } else {
            emit_mset(s.drop_last(), hm).insert(s.last())
        },
    decreases s.len(),
{
    if s.len() == 1 {
        assert(s.drop_first() =~= s.drop_last());
    } else {
        lemma_emit_unfold_last(s.drop_first(), hm);
        assert(s.drop_first().last() == s.last());
        assert(s.drop_first().drop_last() =~= s.drop_last().drop_first());
        assert(s.drop_last()[0] == s[0]);
        assert(s.drop_last().len() > 0);
        if Some(s.last()) == hm {
            assert(emit_mset(s, hm) =~= emit_mset(s.drop_last(), hm));
        } else {
            assert(emit_mset(s, hm) =~= emit_mset(s.drop_last(), hm).insert(s.last()));
        }
    }
}

/// With no hash move to exclude, the drainer yields a raw sequence whole.
pub proof fn lemma_emit_no_hm(s: Seq<Move>)
    ensures
        emit_mset(s, None) == mset_of(s),
    decreases s.len(),
{
    if s.len() > 0 {
        lemma_emit_unfold_last(s, None);
        lemma_emit_no_hm(s.drop_last());
    }
}

/// The capture scan splits a raw capture sequence without loss: scored
/// candidates plus diverted underpromotions are exactly the non-hash moves.
pub proof fn lemma_cap_under_split(s: Seq<Move>, att: Piece, occ: Seq<Option<Piece>>, hm: Option<Move>)
    ensures
        caps_moves(cap_pairs_of(s, att, occ, hm)).add(mset_of(under_seq_of(s, hm)))
            == emit_mset(s, hm),
    decreases s.len(),
{
    if s.len() == 0 {
        assert(caps_moves(cap_pairs_of(s, att, occ, hm)).add(mset_of(under_seq_of(s, hm)))
            =~= emit_mset(s, hm));
    } else {
        lemma_cap_under_split(s.drop_last(), att, occ, hm);
        lemma_emit_unfold_last(s, hm);
        let m = s.last();
        if Some(m) == hm {
        } else if is_underpromotion(m) {
            lemma_mset_concat(under_seq_of(s.drop_last(), hm), seq![m]);
            lemma_mset_singleton(m);
        } else {
            lemma_caps_concat(
                cap_pairs_of(s.drop_last(), att, occ, hm),
                seq![(m, victim_score(att, occ[m.to as int]))],
            );
            lemma_caps_singleton((m, victim_score(att, occ[m.to as int])));
        }
        assert(caps_moves(cap_pairs_of(s, att, occ, hm)).add(mset_of(under_seq_of(s, hm)))
            =~= emit_mset(s, hm));
    }
}

/// Unpacking a union of disjoint bitboards gives, as a multiset, the union of
/// what each unpacks to.
pub proof fn lemma_bb_union(piece: Piece, from: u8, a: u64, b: u64, n: int)
    requires
        a & b == 0,
        0 <= n <= 64,
    ensures
        mset_of(bb_moves_upto(piece, from, a | b, n)) == mset_of(
            bb_moves_upto(piece, from, a, n),
        ).add(mset_of(bb_moves_upto(piece, from, b, n))),
    decreases n,
{
    if n == 0 {
        assert(mset_of(bb_moves_upto(piece, from, a | b, 0)) =~= mset_of(
            bb_moves_upto(piece, from, a, 0),
        ).add(mset_of(bb_moves_upto(piece, from, b, 0))));
    } else {
        lemma_bb_union(piece, from, a, b, n - 1);
        let i = (n - 1) as u64;
        assert((((a | b) >> i) & 1u64 == 1u64) <==> (((a >> i) & 1u64 == 1u64) || ((b >> i)
            & 1u64 == 1u64))) by (bit_vector);
        assert(a & b == 0u64 ==> !(((a >> i) & 1u64 == 1u64) && ((b >> i) & 1u64 == 1u64)))
            by (bit_vector);
        lemma_mset_concat(
            bb_moves_upto(piece, from, a | b, n - 1),
            if bit(a | b, n - 1) {
                square_moves(piece, from, (n - 1) as u8)
            } else {
                Seq::empty()
            },
        );
        lemma_mset_concat(
            bb_moves_upto(piece, from, a, n - 1),
            if bit(a, n - 1) {
                square_moves(piece, from, (n - 1) as u8)
            } else {
                Seq::empty()
            },
        );
        lemma_mset_concat(
            bb_moves_upto(piece, from, b, n - 1),
            if bit(b, n - 1) {
                square_moves(piece, from, (n - 1) as u8)
            } else {
                Seq::empty()
            },
        );
        assert(mset_of(bb_moves_upto(piece, from, a | b, n)) =~= mset_of(
            bb_moves_upto(piece, from, a, n),
        ).add(mset_of(bb_moves_upto(piece, from, b, n))));
    }
}

/// Splitting a group's destinations by enemy occupancy loses no move.
pub proof fn lemma_split_by_enemy(piece: Piece, from: u8, t: u64, enemy: u64)
    ensures
        mset_of(bb_moves(piece, from, t & enemy)).add(mset_of(bb_moves(piece, from, t & !enemy)))
            == mset_of(bb_moves(piece, from, t)),
{
    assert((t & enemy) | (t & !enemy) == t) by (bit_vector);
    assert((t & enemy) & (t & !enemy) == 0u64) by (bit_vector);
    lemma_bb_union(piece, from, t & enemy, t & !enemy, 64);
}

/// A hash move never survives the quiet drainer's filter.
pub proof fn lemma_emit_count_hm(s: Seq<Move>, h: Move)
    ensures
        emit_mset(s, Some(h)).count(h) == 0,
    decreases s.len(),
{
    if s.len() > 0 {
        lemma_emit_count_hm(s.drop_first(), h);
    }
}

pub proof fn lemma_caps_count_hm(s: Seq<Move>, att: Piece, occ: Seq<Option<Piece>>, h: Move)
    ensures
        caps_moves(cap_pairs_of(s, att, occ, Some(h))).count(h) == 0,
    decreases s.len(),
{
    if s.len() > 0 {
        lemma_caps_count_hm(s.drop_last(), att, occ, h);
        let m = s.last();
        if Some(m) == Some(h) || is_underpromotion(m) {
        } else {
            lemma_caps_concat(
                cap_pairs_of(s.drop_last(), att, occ, Some(h)),
                seq![(m, victim_score(att, occ[m.to as int]))],
            );
            lemma_caps_singleton((m, victim_score(att, occ[m.to as int])));
        }
    }
}

pub proof fn lemma_under_count_hm(s: Seq<Move>, h: Move)
    ensures
        mset_of(under_seq_of(s, Some(h))).count(h) == 0,
    decreases s.len(),
{
    if s.len() > 0 {
        lemma_under_count_hm(s.drop_last(), h);
        let m = s.last();
        if Some(m) != Some(h) && is_underpromotion(m) {
            lemma_mset_concat(under_seq_of(s.drop_last(), Some(h)), seq![m]);
            lemma_mset_singleton(m);
        }
    }
}

/// Nothing the later stages hold ever duplicates the hash move, as long as a
/// killer equal to it hits no group (the sentinel guarantees this).
pub proof fn lemma_pend_count_hm(gs: Seq<MoveGroup>, enemy: u64, occ: Seq<Option<Piece>>, h: Move, k: Move)
    requires
        forall|i: int| 0 <= i < gs.len() && killer_hits(#[trigger] gs[i], k) ==> k != h,
    ensures
        pend_all(gs, enemy, occ, Some(h), k).count(h) == 0,
    decreases gs.len(),
{
    if gs.len() > 0 {
        assert(forall|i: int|
            0 <= i < gs.drop_last().len() && killer_hits(#[trigger] gs.drop_last()[i], k)
                ==> k != h);
        lemma_pend_count_hm(gs.drop_last(), enemy, occ, h, k);
        let g = gs.last();
        lemma_caps_concat(
            built_pairs(gs.drop_last(), enemy, occ, Some(h), k),
            group_pairs(g, enemy, occ, Some(h), k),
        );
        lemma_caps_concat(
            if killer_hits(g, k) {
                seq![(k, 0i8)]
            } else {
                Seq::empty()
            },
            cap_pairs_of(group_cap_list(g, k, enemy), g.piece, occ, Some(h)),
        );
        if killer_hits(g, k) {
            assert(gs[gs.len() - 1] == g);
            lemma_caps_singleton((k, 0i8));
        } else {
            assert(caps_moves(Seq::<(Move, i8)>::empty()).count(h) == 0);
        }
        lemma_caps_count_hm(group_cap_list(g, k, enemy), g.piece, occ, h);
        lemma_mset_concat(
            built_under(gs.drop_last(), enemy, Some(h), k),
            under_seq_of(group_cap_list(g, k, enemy), Some(h)),
        );
        lemma_under_count_hm(group_cap_list(g, k, enemy), h);
        lemma_emit_count_hm(group_quiet_moves(g, k, enemy), h);
    }
}

/// A move from a square to itself matches no well-formed group; in
/// particular the sentinel is inert.
pub proof fn lemma_self_move_inert(g: MoveGroup, k: Move)
    requires
        group_wf(g),
        k.from == k.to,
    ensures
        !killer_hits(g, k),
{
    let f = g.from as u64;
    let t = g.to;
    assert(t & (1u64 << f) == 0u64 && f < 64u64 ==> ((t >> f) & 1u64) == 0u64) by (bit_vector);
}

/// With no hash move and a killer that matches no group, the later stages hold
/// exactly the legal moves, each exactly once per occurrence.
pub proof fn lemma_pend_all_no_hints(gs: Seq<MoveGroup>, enemy: u64, occ: Seq<Option<Piece>>, k: Move)
    requires
        forall|i: int| 0 <= i < gs.len() ==> !killer_hits(#[trigger] gs[i], k),
    ensures
        pend_all(gs, enemy, occ, None, k) == legal_mset(gs),
    decreases gs.len(),
{
    if gs.len() == 0 {
        assert(pend_all(gs, enemy, occ, None, k) =~= legal_mset(gs));
    } else {
        assert(forall|i: int| 0 <= i < gs.drop_last().len()
            ==> !killer_hits(#[trigger] gs.drop_last()[i], k));
        lemma_pend_all_no_hints(gs.drop_last(), enemy, occ, k);
        let g = gs.last();
        assert(gs[gs.len() - 1] == g);
        assert(!killer_hits(g, k));
        assert(pruned_to(g, k) == g.to);
        lemma_caps_concat(
            built_pairs(gs.drop_last(), enemy, occ, None, k),
            group_pairs(g, enemy, occ, None, k),
        );
        assert(group_pairs(g, enemy, occ, None, k)
            =~= cap_pairs_of(group_cap_list(g, k, enemy), g.piece, occ, None)) by {
            assert(Seq::<(Move, i8)>::empty() + cap_pairs_of(
                group_cap_list(g, k, enemy), g.piece, occ, None,
            ) =~= cap_pairs_of(group_cap_list(g, k, enemy), g.piece, occ, None));
        }
        lemma_mset_concat(
            built_under(gs.drop_last(), enemy, None, k),
            under_seq_of(group_cap_list(g, k, enemy), None),
        );
        lemma_cap_under_split(group_cap_list(g, k, enemy), g.piece, occ, None);
        lemma_emit_no_hm(group_cap_list(g, k, enemy));
        lemma_emit_no_hm(group_quiet_moves(g, k, enemy));
        lemma_split_by_enemy(g.piece, g.from, g.to, enemy);
        assert(pend_all(gs, enemy, occ, None, k) =~= legal_mset(gs));
    }
}

/// Every capture candidate is either the killer or no underpromotion: the
/// scan diverts underpromotions before scoring.
pub open spec fn caps_entries_ok(s: Seq<(Move, i8)>, k: Move) -> bool {
    forall|i: int|
        0 <= i < s.len() ==> ((#[trigger] s[i]).0 == k || !is_underpromotion(s[i].0))
}

pub proof fn lemma_cap_pairs_entries(s: Seq<Move>, att: Piece, occ: Seq<Option<Piece>>, hm: Option<Move>, k: Move)
    ensures
        caps_entries_ok(cap_pairs_of(s, att, occ, hm), k),
    decreases s.len(),
{
    if s.len() > 0 {
        lemma_cap_pairs_entries(s.drop_last(), att, occ, hm, k);
        let m = s.last();
        if Some(m) == hm || is_underpromotion(m) {
        } else {
            let w = cap_pairs_of(s.drop_last(), att, occ, hm);
            let e = seq![(m, victim_score(att, occ[m.to as int]))];
            assert(forall|i: int|
                0 <= i < (w + e).len() ==> (w + e)[i] == if i < w.len() {
                    w[i]
                } else {
                    e[i - w.len()]
                });
        }
    }
}

/// `i` indexes the first maximal-score candidate: nothing scores higher, and
/// every earlier candidate scores strictly lower (first-found tie-breaking).
pub open spec fn is_first_max(s: Seq<(Move, i8)>, i: int) -> bool {
    &&& 0 <= i < s.len()
    &&& forall|j: int| 0 <= j < s.len() ==> (#[trigger] s[j]).1 <= s[i].1
    &&& forall|j: int| 0 <= j < i ==> (#[trigger] s[j]).1 < s[i].1
}

/// Everything the scan diverts is an underpromotion and never the hash move.
pub proof fn lemma_under_entries(s: Seq<Move>, hm: Option<Move>)
    ensures
        forall|i: int|
            0 <= i < under_seq_of(s, hm).len() ==> is_underpromotion(
                #[trigger] under_seq_of(s, hm)[i],
            ) && Some(under_seq_of(s, hm)[i]) != hm,
    decreases s.len(),
{
    if s.len() > 0 {
        lemma_under_entries(s.drop_last(), hm);
        let m = s.last();
        let w = under_seq_of(s.drop_last(), hm);
        if Some(m) != hm && is_underpromotion(m) {
            assert(under_seq_of(s, hm) == w + seq![m]);
            assert forall|i: int|
                0 <= i < under_seq_of(s, hm).len() implies is_underpromotion(
                under_seq_of(s, hm)[i],
            ) && Some(under_seq_of(s, hm)[i]) != hm by {
                if i < w.len() {
                    assert(under_seq_of(s, hm)[i] == w[i]);
                } else {
                    assert(under_seq_of(s, hm)[i] == m);
                }
            }
        } else {
            assert(under_seq_of(s, hm) == w);
            assert forall|i: int|
                0 <= i < under_seq_of(s, hm).len() implies is_underpromotion(
                under_seq_of(s, hm)[i],
            ) && Some(under_seq_of(s, hm)[i]) != hm by {
                assert(under_seq_of(s, hm)[i] == w[i]);
            }
        }
    }
}

pub proof fn lemma_mset_count_absent(s: Seq<Move>, k: Move)
    requires
        forall|i: int| 0 <= i < s.len() ==> s[i] != k,
    ensures
        mset_of(s).count(k) == 0,
    decreases s.len(),
{
    if s.len() > 0 {
        assert(forall|i: int| 0 <= i < s.drop_last().len() ==> s.drop_last()[i] != k);
        lemma_mset_count_absent(s.drop_last(), k);
        assert(s[s.len() - 1] != k);
    }
}

pub proof fn lemma_emit_count_absent(s: Seq<Move>, hm: Option<Move>, k: Move)
    requires
        forall|i: int| 0 <= i < s.len() ==> s[i] != k,
    ensures
        emit_mset(s, hm).count(k) == 0,
    decreases s.len(),
{
    if s.len() > 0 {
        assert(forall|i: int| 0 <= i < s.drop_first().len() ==> s.drop_first()[i] != k);
        lemma_emit_count_absent(s.drop_first(), hm, k);
        assert(s[0] != k);
    }
}

pub proof fn lemma_cap_pairs_count_absent(s: Seq<Move>, att: Piece, occ: Seq<Option<Piece>>, hm: Option<Move>, k: Move)
    requires
        forall|i: int| 0 <= i < s.len() ==> s[i] != k,
    ensures
        caps_moves(cap_pairs_of(s, att, occ, hm)).count(k) == 0,
    decreases s.len(),
{
    if s.len() > 0 {
        assert(forall|i: int| 0 <= i < s.drop_last().len() ==> s.drop_last()[i] != k);
        lemma_cap_pairs_count_absent(s.drop_last(), att, occ, hm, k);
        let m = s.last();
        assert(m != k);
        if Some(m) == hm || is_underpromotion(m) {
        } else {
            lemma_caps_concat(
                cap_pairs_of(s.drop_last(), att, occ, hm),
                seq![(m, victim_score(att, occ[m.to as int]))],
            );
            lemma_caps_singleton((m, victim_score(att, occ[m.to as int])));
        }
    }
}

pub proof fn lemma_under_count_absent(s: Seq<Move>, hm: Option<Move>, k: Move)
    requires
        forall|i: int| 0 <= i < s.len() ==> s[i] != k,
    ensures
        mset_of(under_seq_of(s, hm)).count(k) == 0,
    decreases s.len(),
{
    if s.len() > 0 {
        assert(forall|i: int| 0 <= i < s.drop_last().len() ==> s.drop_last()[i] != k);
        lemma_under_count_absent(s.drop_last(), hm, k);
        let m = s.last();
        if Some(m) != hm && is_underpromotion(m) {
            lemma_mset_concat(under_seq_of(s.drop_last(), hm), seq![m]);
            lemma_mset_singleton(m);
        }
    }
}

/// A bitboard whose unpacking cannot contain a given move: wrong origin, or
/// the destination square is not set.
pub proof fn lemma_bb_moves_absent(p: Piece, f: u8, bb: u64, k: Move)
    requires
        f != k.from || !bit(bb, k.to as int),
    ensures
        forall|i: int| 0 <= i < bb_moves(p, f, bb).len() ==> bb_moves(p, f, bb)[i] != k,
{
    lemma_bb_moves_props(p, f, bb, 64);
    assert forall|i: int| 0 <= i < bb_moves(p, f, bb).len() implies bb_moves(p, f, bb)[i]
        != k by {
        let m = bb_moves(p, f, bb)[i];
        assert(m.from == f && bit(bb, m.to as int));
    }
}

/// How many origin packets the killer is legal in.
pub open spec fn hit_count(gs: Seq<MoveGroup>, k: Move) -> int
    decreases gs.len(),
{
    if gs.len() == 0 {
        0
    } else {
        hit_count(gs.drop_last(), k) + (if killer_hits(gs.last(), k) {
            1int
        } else {
            0int
        })
    }
}

/// A non-promoting killer is pruned from every packet it matches, so the
/// later stages yield it exactly as often as it was pushed: once per packet
/// it is legal in.
pub proof fn lemma_pend_count_killer(gs: Seq<MoveGroup>, enemy: u64, occ: Seq<Option<Piece>>, hm: Option<Move>, k: Move)
    requires
        k.promotion is None,
        k.to < 64,
    ensures
        pend_all(gs, enemy, occ, hm, k).count(k) == hit_count(gs, k),
    decreases gs.len(),
{
    if gs.len() == 0 {
        assert(pend_all(gs, enemy, occ, hm, k).count(k) == 0);
    } else {
        lemma_pend_count_killer(gs.drop_last(), enemy, occ, hm, k);
        let g = gs.last();
        lemma_caps_concat(
            built_pairs(gs.drop_last(), enemy, occ, hm, k),
            group_pairs(g, enemy, occ, hm, k),
        );
        lemma_caps_concat(
            if killer_hits(g, k) {
                seq![(k, 0i8)]
            } else {
                Seq::empty()
            },
            cap_pairs_of(group_cap_list(g, k, enemy), g.piece, occ, hm),
        );
        if killer_hits(g, k) {
            lemma_caps_singleton((k, 0i8));
        }
        lemma_mset_concat(
            built_under(gs.drop_last(), enemy, hm, k),
            under_seq_of(group_cap_list(g, k, enemy), hm),
        );
        let t = k.to as u64;
        let p = pruned_to(g, k);
        if g.from == k.from {
            if killer_hits(g, k) {
                let a = g.to;
                assert(t < 64 ==> (((a & !(1u64 << t)) >> t) & 1u64) == 0u64) by (bit_vector);
            }
            assert(!bit(p, k.to as int));
            assert(((p >> t) & 1u64) == 0u64 || ((p >> t) & 1u64) == 1u64) by (bit_vector);
            assert((((p >> t) & 1u64) == 0u64) ==> (((((p & enemy) >> t) & 1u64) != 1u64) && ((((
            p & !enemy) >> t) & 1u64) != 1u64))) by (bit_vector);
            assert(!bit(p & enemy, k.to as int));
            assert(!bit(p & !enemy, k.to as int));
            lemma_bb_moves_absent(g.piece, g.from, cap_bb(g, k, enemy), k);
            lemma_bb_moves_absent(g.piece, g.from, quiet_bb(g, k, enemy), k);
        } else {
            lemma_bb_moves_absent(g.piece, g.from, cap_bb(g, k, enemy), k);
            lemma_bb_moves_absent(g.piece, g.from, quiet_bb(g, k, enemy), k);
        }
        lemma_cap_pairs_count_absent(group_cap_list(g, k, enemy), g.piece, occ, hm, k);
        lemma_under_count_absent(group_cap_list(g, k, enemy), hm, k);
        lemma_emit_count_absent(group_quiet_moves(g, k, enemy), hm, k);
    }
}

/// A killer that is legal in some group is among the capture candidates.
pub proof fn lemma_killer_in_built(gs: Seq<MoveGroup>, enemy: u64, occ: Seq<Option<Piece>>, hm: Option<Move>, k: Move)
    requires
        exists|i: int| 0 <= i < gs.len() && killer_hits(#[trigger] gs[i], k),
    ensures
        caps_moves(built_pairs(gs, enemy, occ, hm, k)).count(k) >= 1,
    decreases gs.len(),
{
    let i = choose|i: int| 0 <= i < gs.len() && killer_hits(#[trigger] gs[i], k);
    let g = gs.last();
    lemma_caps_concat(
        built_pairs(gs.drop_last(), enemy, occ, hm, k),
        group_pairs(g, enemy, occ, hm, k),
    );
    if i == gs.len() - 1 {
        lemma_caps_concat(
            seq![(k, 0i8)],
            cap_pairs_of(group_cap_list(g, k, enemy), g.piece, occ, hm),
        );
        lemma_caps_singleton((k, 0i8));
    } else {
        assert(0 <= i < gs.drop_last().len() && killer_hits(gs.drop_last()[i], k));
        lemma_killer_in_built(gs.drop_last(), enemy, occ, hm, k);
    }
}

} // verus!
