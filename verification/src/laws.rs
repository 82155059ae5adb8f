//! The stream-level guarantees, stated over the same spec functions the
//! constructors and `next` promise: what a full drain of a fresh stream
//! yields (`stream_total`, pinned by `new` and paid out move by move by
//! `next`), and how the hints interact with it.

use vstd::prelude::*;
use vstd::multiset::Multiset;
use crate::model::{cap_score, group_wf, move_in_range, ordinal, LegalMoves, Move, MoveGroup, Piece};
use crate::counting::{
    built_pairs, caps_moves, hit_count, hm_mset, killer_hits, legal_mset, lemma_killer_in_built,
    lemma_pend_all_no_hints, lemma_pend_count_hm, lemma_pend_count_killer, lemma_self_move_inert,
    norm_killer, pend_all, stream_total,
};

verus! {

/// With no hash move and a killer that is legal nowhere (an absent killer is
/// passed as a move from a square to itself), a full drain yields exactly the
/// legal-move multiset of the position: every legal move once, nothing else.
pub proof fn lemma_full_stream_is_legal(legal: LegalMoves, killer: Move)
    requires
        legal.wf(),
        forall|i: int| 0 <= i < legal.groups@.len() ==> !killer_hits(#[trigger] legal.groups@[i], killer),
    ensures
        stream_total(legal, None, killer) == legal_mset(legal.groups@),
{
    assert(norm_killer(None, killer) == killer);
    lemma_pend_all_no_hints(legal.groups@, legal.enemy, legal.occupants@, killer);
    assert(stream_total(legal, None, killer) =~= legal_mset(legal.groups@));
}

/// A killer hint written as a move from a square to itself is inert: it is
/// legal in no group of a well-formed position.
pub proof fn lemma_self_move_killer_inert(legal: LegalMoves, killer: Move)
    requires
        legal.wf(),
        killer.from == killer.to,
    ensures
        forall|i: int| 0 <= i < legal.groups@.len() ==> !killer_hits(#[trigger] legal.groups@[i], killer),
{
    assert forall|i: int| 0 <= i < legal.groups@.len() implies !killer_hits(
        #[trigger] legal.groups@[i],
        killer,
    ) by {
        lemma_self_move_inert(legal.groups@[i], killer);
    }
}

/// A supplied hash move appears in the full stream exactly once, whatever the
/// killer hint: the later stages exclude it everywhere, and a killer equal to
/// it is disabled by the sentinel at construction.
pub proof fn lemma_hash_emitted_once(legal: LegalMoves, h: Move, killer: Move)
    requires
        legal.wf(),
    ensures
        stream_total(legal, Some(h), killer).count(h) == 1,
{
    let k = norm_killer(Some(h), killer);
    assert forall|i: int| 0 <= i < legal.groups@.len() && killer_hits(
        #[trigger] legal.groups@[i],
        k,
    ) implies k != h by {
        if killer == h {
            lemma_self_move_inert(legal.groups@[i], k);
        }
    }
    lemma_pend_count_hm(legal.groups@, legal.enemy, legal.occupants@, h, k);
    assert(hm_mset(Some(h)).count(h) == 1);
}

/// A killer distinct from the hash move and legal in some group stands among
/// the capture candidates the single pass builds, so the capture phase serves
/// it before any quiet move.
pub proof fn lemma_killer_served_with_captures(legal: LegalMoves, hm: Option<Move>, killer: Move)
    requires
        Some(killer) != hm,
        exists|i: int| 0 <= i < legal.groups@.len() && killer_hits(#[trigger] legal.groups@[i], killer),
    ensures
        caps_moves(
            built_pairs(
                legal.groups@,
                legal.enemy,
                legal.occupants@,
                hm,
                norm_killer(hm, killer),
            ),
        ).count(killer) >= 1,
{
    assert(norm_killer(hm, killer) == killer);
    lemma_killer_in_built(legal.groups@, legal.enemy, legal.occupants@, hm, killer);
}

/// A non-promoting killer distinct from the hash move appears in the full
/// stream once per origin packet it is legal in — exactly once in the usual
/// case of a single matching packet, and not at all when it is illegal. With
/// `lemma_killer_served_with_captures` and the stage order of `next`, that
/// one copy is served during the capture phase.
pub proof fn lemma_killer_emitted_once(legal: LegalMoves, hm: Option<Move>, killer: Move)
    requires
        move_in_range(killer),
        killer.promotion is None,
        Some(killer) != hm,
    ensures
        stream_total(legal, hm, killer).count(killer) == hit_count(legal.groups@, killer),
{
    assert(norm_killer(hm, killer) == killer);
    lemma_pend_count_killer(legal.groups@, legal.enemy, legal.occupants@, hm, killer);
    assert(hm_mset(hm).count(killer) == 0);
}

/// After the maximum-score candidate is removed by swapping in the last entry
/// and truncating, every remaining candidate still scores no higher: capture
/// picks come in non-increasing score order.
pub proof fn lemma_capture_picks_non_increasing(caps: Seq<(Move, i8)>, i: int)
    requires
        0 <= i < caps.len(),
        forall|j: int| 0 <= j < caps.len() ==> (#[trigger] caps[j]).1 <= caps[i].1,
    ensures
        forall|j: int|
            0 <= j < caps.update(i, caps.last()).drop_last().len() ==> (#[trigger] caps.update(
                i,
                caps.last(),
            ).drop_last()[j]).1 <= caps[i].1,
{
    let rest = caps.update(i, caps.last()).drop_last();
    assert forall|j: int| 0 <= j < rest.len() implies (#[trigger] rest[j]).1 <= caps[i].1 by {
        if j == i {
            assert(rest[j] == caps.last());
        } else {
            assert(rest[j] == caps[j]);
        }
    }
}

/// For one attacker class, the more valuable victim always scores strictly
/// higher, so it is served first.
pub proof fn lemma_victim_order(att: Piece, v1: Piece, v2: Piece)
    requires
        ordinal(v1) > ordinal(v2),
    ensures
        cap_score(att, v1) > cap_score(att, v2),
{
}

/// A position with no legal moves gives, without a hash-move hint, an empty
/// stream whatever the killer hint says.
pub proof fn lemma_no_moves_empty_stream(legal: LegalMoves, killer: Move)
    requires
        legal.wf(),
        legal.groups@.len() == 0,
    ensures
        stream_total(legal, None, killer) == Multiset::<Move>::empty(),
{
    lemma_pend_all_no_hints(legal.groups@, legal.enemy, legal.occupants@, norm_killer(None, killer));
    assert(stream_total(legal, None, killer) =~= Multiset::<Move>::empty());
}

} // verus!
