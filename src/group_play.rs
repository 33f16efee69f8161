//! Group play: generating a round and processing its results.
use crate::external::{random_u32, shuffle};
use crate::game::{losers_of, participants, winners_of, GameMatch, MatchId, RoundType, Team};
use crate::player::{ids_of, models, sat_out, Player, PlayerId, PlayerModel};
use crate::tournament::{
    bracket_size, find_player, forward_step, has_id, match_size, Tournament, TournamentError,
    TournamentMode, TournamentState,
};
use std::collections::HashMap;
use vstd::multiset::Multiset;
use vstd::prelude::*;

verus! {

broadcast use {vstd::seq_lib::group_to_multiset_ensures, vstd::std_specs::hash::group_hash_axioms};

/// Ids of the players of `s` that are not flagged eliminated.
pub open spec fn active_ids(s: Seq<Player>) -> Multiset<PlayerId>
    decreases s.len(),
{
    if s.len() == 0 {
        Multiset::empty()
    } else if s.last().eliminated {
        active_ids(s.drop_last())
    } else {
        active_ids(s.drop_last()).insert(s.last().id)
    }
}

/// The ids of the players of `s` at positions `c`.
pub open spec fn ids_at(s: Seq<Player>, c: Seq<usize>) -> Seq<PlayerId> {
    c.map_values(|j: usize| s[j as int].id)
}

/// Every position in `c` holds a player of `s` not flagged eliminated, and
/// no position occurs twice.
pub open spec fn active_positions(s: Seq<Player>, c: Seq<usize>) -> bool {
    &&& forall|q: int| 0 <= q < c.len() ==> (#[trigger] c[q]) < s.len() && !s[c[q] as int].eliminated
    &&& c.no_duplicates()
}

/// Position `j` occurs in `c`.
pub open spec fn chosen(c: Seq<usize>, j: int) -> bool {
    exists|q: int| 0 <= q < c.len() && c[q] as int == j
}

/// Sit-out order: fewer sit-outs first, then the lower tie-break.
pub open spec fn key_le(s: Seq<Player>, tb: Seq<u32>, a: usize, b: usize) -> bool {
    let x = s[a as int].internal_times_sat_out;
    let y = s[b as int].internal_times_sat_out;
    x < y || (x == y && tb[a as int] <= tb[b as int])
}

/// Positions of the players of `s` that are not flagged eliminated.
fn active_indices(s: &Vec<Player>) -> (c: Vec<usize>)
    ensures
        active_positions(s@, c@),
        forall|j: int| 0 <= j < s@.len() && !s@[j].eliminated ==> chosen(c@, j),
        ids_at(s@, c@).to_multiset() == active_ids(s@),
{
    let mut c: Vec<usize> = Vec::new();
    let mut i: usize = 0;
    while i < s.len()
        invariant
            i <= s.len(),
            active_positions(s@, c@),
            forall|q: int| 0 <= q < c@.len() ==> c@[q] < i,
            forall|j: int| 0 <= j < i && !s@[j].eliminated ==> chosen(c@, j),
            ids_at(s@, c@).to_multiset() == active_ids(s@.subrange(0, i as int)),
        decreases s.len() - i,
    {
        proof {
            assert(s@.subrange(0, i + 1).drop_last() =~= s@.subrange(0, i as int));
            assert(s@.subrange(0, i + 1).last() == s@[i as int]);
        }
        if !s[i].eliminated {
            let ghost prev = c@;
            c.push(i);
            proof {
                assert(ids_at(s@, c@) =~= ids_at(s@, prev).push(s@[i as int].id));
                assert forall|j: int| 0 <= j < i + 1 && !s@[j].eliminated implies chosen(c@, j) by {
                    if j < i {
                        assert(chosen(prev, j));
                        let q = choose|q: int| 0 <= q < prev.len() && prev[q] as int == j;
                        assert(c@[q] as int == j);
                    } else {
                        assert(c@[prev.len() as int] == i);
                    }
                }
            }
        }
        i = i + 1;
    }
    proof {
        assert(s@.subrange(0, s@.len() as int) =~= s@);
    }
    c
}

/// Position in `c` of a player that comes first in sit-out order.
fn min_position(s: &Vec<Player>, tb: &Vec<u32>, c: &Vec<usize>) -> (m: usize)
    requires
        c@.len() > 0,
        tb@.len() == s@.len(),
        forall|q: int| 0 <= q < c@.len() ==> (#[trigger] c@[q]) < s@.len(),
    ensures
        m < c@.len(),
        forall|q: int| 0 <= q < c@.len() ==> key_le(s@, tb@, c@[m as int], #[trigger] c@[q]),
{
    let mut m: usize = 0;
    let mut q: usize = 1;
    while q < c.len()
        invariant
            1 <= q <= c@.len(),
            m < q,
            tb@.len() == s@.len(),
            forall|x: int| 0 <= x < c@.len() ==> (#[trigger] c@[x]) < s@.len(),
            forall|x: int| 0 <= x < q ==> key_le(s@, tb@, c@[m as int], #[trigger] c@[x]),
        decreases c@.len() - q,
    {
        let a = s[c[q]].internal_times_sat_out;
        let b = s[c[m]].internal_times_sat_out;
        if a < b || (a == b && tb[c[q]] < tb[c[m]]) {
            m = q;
        }
        q = q + 1;
    }
    m
}

/// Splits `c` into `excess` positions that come first in sit-out order and
/// the rest.
fn pick_sit_outs(s: &Vec<Player>, tb: &Vec<u32>, c: Vec<usize>, excess: usize) -> (r: (
    Vec<usize>,
    Vec<usize>,
))
    requires
        excess <= c@.len(),
        tb@.len() == s@.len(),
        active_positions(s@, c@),
    ensures
        r.0@.len() == excess,
        r.0@.len() + r.1@.len() == c@.len(),
        active_positions(s@, r.0@),
        active_positions(s@, r.1@),
        forall|i: int, q: int|
            0 <= i < r.0@.len() && 0 <= q < r.1@.len() ==> r.0@[i] != r.1@[q] && key_le(
                s@,
                tb@,
                #[trigger] r.0@[i],
                #[trigger] r.1@[q],
            ),
        forall|j: int| chosen(c@, j) ==> chosen(r.0@, j) || chosen(r.1@, j),
        (ids_at(s@, r.0@) + ids_at(s@, r.1@)).to_multiset() == ids_at(s@, c@).to_multiset(),
{
    let ghost c0 = c@;
    let mut sel: Vec<usize> = Vec::new();
    let mut rest = c;
    while sel.len() < excess
        invariant
            excess <= c0.len(),
            sel@.len() <= excess,
            tb@.len() == s@.len(),
            sel@.len() + rest@.len() == c0.len(),
            active_positions(s@, sel@),
            active_positions(s@, rest@),
            forall|i: int, q: int|
                0 <= i < sel@.len() && 0 <= q < rest@.len() ==> sel@[i] != rest@[q] && key_le(
                    s@,
                    tb@,
                    #[trigger] sel@[i],
                    #[trigger] rest@[q],
                ),
            forall|j: int| chosen(c0, j) ==> chosen(sel@, j) || chosen(rest@, j),
            (ids_at(s@, sel@) + ids_at(s@, rest@)).to_multiset() == ids_at(s@, c0).to_multiset(),
        decreases excess - sel@.len(),
    {
        let m = min_position(s, tb, &rest);
        let ghost sel0 = sel@;
        let ghost rest0 = rest@;
        let x = rest.remove(m);
        sel.push(x);
        proof {
            assert forall|q: int| 0 <= q < rest@.len() implies #[trigger] rest@[q] == rest0[if q
                < m {
                q
            } else {
                q + 1
            }] by {}
            assert forall|a: int, b: int|
                0 <= a < rest@.len() && 0 <= b < rest@.len() && a != b implies rest@[a]
                != rest@[b] by {
                let a0 = if a < m {
                    a
                } else {
                    a + 1
                };
                let b0 = if b < m {
                    b
                } else {
                    b + 1
                };
                assert(rest@[a] == rest0[a0]);
                assert(rest@[b] == rest0[b0]);
            }
            assert forall|a: int, b: int|
                0 <= a < sel@.len() && 0 <= b < sel@.len() && a != b implies sel@[a]
                != sel@[b] by {
                if a == sel0.len() {
                    assert(sel0[b] != rest0[m as int]);
                } else if b == sel0.len() {
                    assert(sel0[a] != rest0[m as int]);
                }
            }
            assert forall|i: int, q: int|
                0 <= i < sel@.len() && 0 <= q < rest@.len() implies sel@[i] != rest@[q]
                && key_le(s@, tb@, #[trigger] sel@[i], #[trigger] rest@[q]) by {
                let q0 = if q < m {
                    q
                } else {
                    q + 1
                };
                assert(rest@[q] == rest0[q0]);
                if i == sel0.len() {
                    assert(key_le(s@, tb@, rest0[m as int], rest0[q0]));
                } else {
                    assert(sel@[i] == sel0[i]);
                    assert(key_le(s@, tb@, sel0[i], rest0[q0]));
                }
            }
            assert forall|j: int| chosen(c0, j) implies chosen(sel@, j) || chosen(rest@, j) by {
                if chosen(sel0, j) {
                    let i = choose|i: int| 0 <= i < sel0.len() && sel0[i] as int == j;
                    assert(sel@[i] as int == j);
                } else {
                    let q0 = choose|q: int| 0 <= q < rest0.len() && rest0[q] as int == j;
                    if q0 == m {
                        assert(sel@[sel0.len() as int] as int == j);
                    } else if q0 < m {
                        assert(rest@[q0] as int == j);
                    } else {
                        assert(rest@[q0 - 1] as int == j);
                    }
                }
            }
            let f = |j: usize| s@[j as int].id;
            assert(ids_at(s@, sel@) =~= ids_at(s@, sel0).push(s@[x as int].id));
            assert(ids_at(s@, rest@) =~= ids_at(s@, rest0).remove(m as int));
            vstd::seq_lib::lemma_multiset_commutative(ids_at(s@, sel0), ids_at(s@, rest0));
            vstd::seq_lib::lemma_multiset_commutative(ids_at(s@, sel@), ids_at(s@, rest@));
            assert(ids_at(s@, rest0)[m as int] == s@[x as int].id);
            assert((ids_at(s@, sel@) + ids_at(s@, rest@)).to_multiset() =~= (ids_at(s@, sel0)
                + ids_at(s@, rest0)).to_multiset());
        }
    }
    (sel, rest)
}

/// Players per team in a group match.
pub open spec fn team_size(mode: TournamentMode) -> nat {
    match mode {
        TournamentMode::OneVOne => 1,
        TournamentMode::TwoVTwo => 2,
    }
}

/// `m` is an unplayed group match with teams of the mode's size.
pub open spec fn group_match(m: GameMatch, mode: TournamentMode) -> bool {
    &&& m.team_1@.len() == team_size(mode)
    &&& m.team_2@.len() == team_size(mode)
    &&& m.winner is None
    &&& m.round == RoundType::GroupPlay
}

/// `sel` are positions of active players of `s`, none of whom has sat out
/// more often than an active player outside `sel`.
pub open spec fn fair_sit_outs(s: Seq<Player>, sel: Seq<usize>) -> bool {
    &&& active_positions(s, sel)
    &&& forall|i: int, j: int|
        0 <= i < sel.len() && 0 <= j < s.len() && !s[j].eliminated && !chosen(sel, j)
            ==> #[trigger] s[sel[i] as int].internal_times_sat_out <= #[trigger] s[j].internal_times_sat_out
}

/// The models of `s` with the players at positions `sel` having sat out once more.
pub open spec fn after_sit_outs(s: Seq<Player>, sel: Seq<usize>) -> Seq<crate::player::PlayerModel> {
    Seq::new(
        s.len(),
        |j: int|
            if chosen(sel, j) {
                sat_out(s[j]@)
            } else {
                s[j]@
            },
    )
}

/// The sit-out counters of every active player of `s` can grow by one.
pub open spec fn sit_out_room(s: Seq<Player>) -> bool {
    forall|j: int|
        0 <= j < s.len() && !s[j].eliminated ==> (#[trigger] s[j]).times_sat_out < u32::MAX
            && s[j].internal_times_sat_out < i32::MAX
}

/// `f` is `o` after one group round was generated.
pub open spec fn round_generated(o: Tournament, f: Tournament) -> bool {
    let n = active_ids(o.players@).len();
    let k = match_size(o.mode);
    &&& exists|sel: Seq<usize>|
        fair_sit_outs(o.players@, sel) && sel.len() == n % k && models(f.unused_players@)
            == sel.map_values(|j: usize| sat_out(o.players@[j as int]@)) && models(f.players@)
            == after_sit_outs(o.players@, sel)
    &&& (ids_of(f.unused_players@) + participants(f.matches@)).to_multiset() == active_ids(
        o.players@,
    )
    &&& f.matches@.len() == (n - n % k) / (k as int)
    &&& forall|i: int| 0 <= i < f.matches@.len() ==> group_match(#[trigger] f.matches@[i], o.mode)
    &&& f.match_results@ == Map::<u128, crate::game::Team>::empty()
    &&& f == (Tournament {
        players: f.players,
        unused_players: f.unused_players,
        matches: f.matches,
        match_results: f.match_results,
        ..o
    })
}

/// Marks the players at positions `sel` as having sat out once more, and
/// returns copies of them in the order of `sel`.
fn sit_out_players(players: &mut Vec<Player>, sel: &Vec<usize>) -> (unused: Vec<Player>)
    requires
        active_positions(old(players)@, sel@),
        sit_out_room(old(players)@),
    ensures
        final(players)@.len() == old(players)@.len(),
        models(final(players)@) == after_sit_outs(old(players)@, sel@),
        models(unused@) == sel@.map_values(|j: usize| sat_out(old(players)@[j as int]@)),
        ids_of(unused@) == ids_at(old(players)@, sel@),
{
    let ghost start = players@;
    let mut unused: Vec<Player> = Vec::new();
    let mut u: usize = 0;
    while u < sel.len()
        invariant
            u <= sel@.len(),
            players@.len() == start.len(),
            active_positions(start, sel@),
            sit_out_room(start),
            models(players@) == after_sit_outs(start, sel@.subrange(0, u as int)),
            models(unused@) == sel@.subrange(0, u as int).map_values(
                |j: usize| sat_out(start[j as int]@),
            ),
        decreases sel@.len() - u,
    {
        let j = sel[u];
        proof {
            assert(!chosen(sel@.subrange(0, u as int), j as int)) by {
                if chosen(sel@.subrange(0, u as int), j as int) {
                    let q = choose|q: int| 0 <= q < u && sel@.subrange(0, u as int)[q] as int == j as int;
                    assert(sel@[q] == sel@[u as int]);
                }
            }
            assert(players@[j as int]@ == models(players@)[j as int]);
        }
        let mut p = players[j].duplicate();
        p.record_sat_out();
        let ghost before = players@;
        let ghost prev_unused = unused@;
        unused.push(p.duplicate());
        players.set(j, p);
        proof {
            assert(sel@.subrange(0, u + 1) =~= sel@.subrange(0, u as int).push(j));
            assert(models(players@) =~= after_sit_outs(start, sel@.subrange(0, u + 1))) by {
                assert forall|x: int| 0 <= x < start.len() implies models(players@)[x]
                    == after_sit_outs(start, sel@.subrange(0, u + 1))[x] by {
                    if x != j as int {
                        assert(models(before)[x] == models(players@)[x]);
                        if chosen(sel@.subrange(0, u as int), x) {
                            let q = choose|q: int|
                                0 <= q < u && #[trigger] sel@.subrange(0, u as int)[q] as int == x;
                            assert(sel@.subrange(0, u + 1)[q] as int == x);
                        }
                        if chosen(sel@.subrange(0, u + 1), x) {
                            let q = choose|q: int|
                                0 <= q < u + 1 && #[trigger] sel@.subrange(0, u + 1)[q] as int == x;
                            assert(q != u);
                            assert(sel@.subrange(0, u as int)[q] as int == x);
                        }
                    } else {
                        assert(sel@.subrange(0, u + 1)[u as int] == j);
                        assert(chosen(sel@.subrange(0, u + 1), x));
                    }
                }
            }
            assert(models(unused@) =~= models(prev_unused).push(p@));
            assert(models(unused@) =~= sel@.subrange(0, u + 1).map_values(
                |j: usize| sat_out(start[j as int]@),
            ));
        }
        u = u + 1;
    }
    proof {
        assert(sel@.subrange(0, sel@.len() as int) =~= sel@);
        assert(ids_of(unused@) =~= ids_at(start, sel@)) by {
            assert forall|x: int| 0 <= x < unused@.len() implies ids_of(unused@)[x] == ids_at(
                start,
                sel@,
            )[x] by {
                assert(models(unused@)[x] == unused@[x]@);
            }
        }
    }
    unused
}

/// The ids of the players of `s` at positions `c`.
fn ids_at_positions(s: &Vec<Player>, c: &Vec<usize>) -> (r: Vec<PlayerId>)
    requires
        forall|q: int| 0 <= q < c@.len() ==> (#[trigger] c@[q]) < s@.len(),
    ensures
        r@ == ids_at(s@, c@),
{
    let mut r: Vec<PlayerId> = Vec::new();
    let mut q: usize = 0;
    while q < c.len()
        invariant
            q <= c@.len(),
            forall|x: int| 0 <= x < c@.len() ==> (#[trigger] c@[x]) < s@.len(),
            r@ == ids_at(s@, c@.subrange(0, q as int)),
        decreases c@.len() - q,
    {
        r.push(s[c[q]].id);
        proof {
            assert(r@ =~= ids_at(s@, c@.subrange(0, q + 1)));
        }
        q = q + 1;
    }
    proof {
        assert(c@.subrange(0, c@.len() as int) =~= c@);
    }
    r
}

/// Cuts `ids` into consecutive group matches of the mode's size, each team
/// being one half of its slice.
fn form_matches(ids: &Vec<PlayerId>, mode: TournamentMode) -> (r: Vec<GameMatch>)
    requires
        ids@.len() % match_size(mode) == 0,
    ensures
        participants(r@) == ids@,
        r@.len() == ids@.len() / match_size(mode),
        forall|i: int| 0 <= i < r@.len() ==> group_match(#[trigger] r@[i], mode),
{
    let k: usize = match mode {
        TournamentMode::OneVOne => 2,
        TournamentMode::TwoVTwo => 4,
    };
    let mut r: Vec<GameMatch> = Vec::new();
    let mut pos: usize = 0;
    while k <= ids.len() - pos
        invariant
            k == match_size(mode),
            pos <= ids@.len(),
            (ids@.len() - pos) % (k as int) == 0,
            pos == r@.len() * k,
            participants(r@) == ids@.subrange(0, pos as int),
            forall|i: int| 0 <= i < r@.len() ==> group_match(#[trigger] r@[i], mode),
        decreases ids@.len() - pos,
    {
        let mut team_1: Vec<PlayerId> = Vec::new();
        let mut team_2: Vec<PlayerId> = Vec::new();
        match mode {
            TournamentMode::OneVOne => {
                team_1.push(ids[pos]);
                team_2.push(ids[pos + 1]);
            },
            TournamentMode::TwoVTwo => {
                team_1.push(ids[pos]);
                team_1.push(ids[pos + 1]);
                team_2.push(ids[pos + 2]);
                team_2.push(ids[pos + 3]);
            },
        }
        let m = GameMatch::new(team_1, team_2, RoundType::GroupPlay);
        let ghost prev = r@;
        r.push(m);
        proof {
            assert(r@.drop_last() =~= prev);
            assert(participants(r@) == participants(prev) + m.team_1@ + m.team_2@);
            assert(participants(r@) =~= ids@.subrange(0, pos + k));
            assert(r@.len() * k == pos + k) by (nonlinear_arith)
                requires
                    r@.len() == prev.len() + 1,
                    pos == prev.len() * k,
            ;
        }
        pos = pos + k;
    }
    proof {
        assert(ids@.subrange(0, pos as int) =~= ids@);
        assert(r@.len() == ids@.len() / (k as nat)) by (nonlinear_arith)
            requires
                pos == r@.len() * k,
                pos == ids@.len(),
                k > 0,
        ;
    }
    r
}

/// Generates the next group round. The `n mod k` active players who have
/// sat out least often (ties broken at random) sit out, where `n` is the
/// number of active players and `k` the match size; the others are shuffled
/// and cut into matches.
pub fn generate_group_play_matches(tournament: &mut Tournament) -> (r: Result<(), TournamentError>)
    requires
        sit_out_room(old(tournament).players@),
    ensures
        old(tournament).state != TournamentState::GroupPlay ==> r == Err::<(), TournamentError>(
            TournamentError::InvalidState,
        ),
        old(tournament).state == TournamentState::GroupPlay && active_ids(
            old(tournament).players@,
        ).len() < match_size(old(tournament).mode) ==> r == Err::<(), TournamentError>(
            TournamentError::NotEnoughPlayers,
        ),
        old(tournament).state == TournamentState::GroupPlay && active_ids(
            old(tournament).players@,
        ).len() >= match_size(old(tournament).mode) ==> r is Ok,
        r is Err ==> *final(tournament) == *old(tournament),
        r is Ok ==> round_generated(*old(tournament), *final(tournament)),
        forward_step(old(tournament).state, final(tournament).state),
{
    if tournament.state != TournamentState::GroupPlay {
        return Err(TournamentError::InvalidState);
    }
    let k: usize = match tournament.mode {
        TournamentMode::OneVOne => 2,
        TournamentMode::TwoVTwo => 4,
    };
    let ghost o = *tournament;
    let cand = active_indices(&tournament.players);
    proof {
        assert(ids_at(o.players@, cand@).len() == cand@.len());
    }
    if cand.len() < k {
        return Err(TournamentError::NotEnoughPlayers);
    }
    let n = cand.len();
    let mut tb: Vec<u32> = Vec::new();
    while tb.len() < tournament.players.len()
        invariant
            tb@.len() <= tournament.players@.len(),
        decreases tournament.players@.len() - tb@.len(),
    {
        tb.push(random_u32());
    }
    let excess = n % k;
    assert(k == match_size(tournament.mode));
    let ghost cand0 = cand@;
    let (sel, rest) = pick_sit_outs(&tournament.players, &tb, cand, excess);
    let mut ids = ids_at_positions(&tournament.players, &rest);
    shuffle(&mut ids);
    proof {
        assert(((n - excess) as int) % (k as int) == 0) by (nonlinear_arith)
            requires
                excess as int == (n as int) % (k as int),
                k > 0,
        ;
    }
    let matches = form_matches(&ids, tournament.mode);
    let unused = sit_out_players(&mut tournament.players, &sel);
    tournament.matches = matches;
    tournament.unused_players = unused;
    tournament.match_results.clear();
    proof {
        let f = *tournament;
        assert(fair_sit_outs(o.players@, sel@)) by {
            assert forall|i: int, j: int|
                0 <= i < sel@.len() && 0 <= j < o.players@.len() && !o.players@[j].eliminated
                    && !chosen(sel@, j) implies #[trigger] o.players@[sel@[i] as int].internal_times_sat_out
                <= #[trigger] o.players@[j].internal_times_sat_out by {
                assert(chosen(cand0, j));
                assert(chosen(rest@, j));
                let q = choose|q: int| 0 <= q < rest@.len() && rest@[q] as int == j;
                assert(key_le(o.players@, tb@, sel@[i], rest@[q]));
            }
        }
        vstd::seq_lib::lemma_multiset_commutative(ids_at(o.players@, sel@), ids_at(o.players@, rest@));
        vstd::seq_lib::lemma_multiset_commutative(ids_of(f.unused_players@), participants(f.matches@));
        assert(ids@.len() == n - excess);
        assert(((n as int) - (n as int) % (k as int)) / (k as int) == (ids@.len() as int) / (k as int));
    }
    Ok(())
}

/// Every match of `ms` has a recorded winner in `res`.
pub open spec fn results_complete(ms: Seq<GameMatch>, res: Map<MatchId, Team>) -> bool {
    forall|i: int| 0 <= i < ms.len() ==> res.contains_key(#[trigger] ms[i].id)
}

/// Every player id of the matches `ms` belongs to a player of `s`.
pub open spec fn participants_listed(ms: Seq<GameMatch>, s: Seq<Player>) -> bool {
    &&& forall|i: int, q: int|
        0 <= i < ms.len() && 0 <= q < ms[i].team_1@.len() ==> has_id(s, #[trigger] ms[i].team_1@[q])
    &&& forall|i: int, q: int|
        0 <= i < ms.len() && 0 <= q < ms[i].team_2@.len() ==> has_id(s, #[trigger] ms[i].team_2@[q])
}

/// `id` is on the winning side of some match of `ms`.
pub open spec fn wins_round(ms: Seq<GameMatch>, res: Map<MatchId, Team>, id: PlayerId) -> bool {
    exists|i: int| 0 <= i < ms.len() && winners_of(ms[i], res[ms[i].id]).contains(id)
}

/// `id` is on the losing side of some match of `ms`.
pub open spec fn loses_round(ms: Seq<GameMatch>, res: Map<MatchId, Team>, id: PlayerId) -> bool {
    exists|i: int| 0 <= i < ms.len() && losers_of(ms[i], res[ms[i].id]).contains(id)
}

/// A player after a group round: one more win if on a winning side, one
/// more loss if on a losing side, and eliminated if that loss reaches the
/// maximum.
pub open spec fn after_round(m: PlayerModel, win: bool, lose: bool, max_losses: u32) -> PlayerModel {
    let losses = if lose {
        (m.losses + 1) as u32
    } else {
        m.losses
    };
    PlayerModel {
        wins: if win {
            (m.wins + 1) as u32
        } else {
            m.wins
        },
        losses,
        eliminated: m.eliminated || (lose && losses >= max_losses),
        ..m
    }
}

/// The roster of `t` after its group round is applied.
pub open spec fn updated_roster(t: Tournament) -> Seq<PlayerModel> {
    Seq::new(
        t.players@.len(),
        |j: int|
            after_round(
                t.players@[j]@,
                wins_round(t.matches@, t.match_results@, t.players@[j].id),
                loses_round(t.matches@, t.match_results@, t.players@[j].id),
                t.max_losses,
            ),
    )
}

/// The win and loss counters of the players of `t` who play can grow by one.
pub open spec fn result_room(t: Tournament) -> bool {
    forall|j: int|
        0 <= j < t.players@.len() ==> (wins_round(t.matches@, t.match_results@, #[trigger] t.players@[j].id)
            ==> t.players@[j].wins < u32::MAX) && (loses_round(
            t.matches@,
            t.match_results@,
            t.players@[j].id,
        ) ==> t.players@[j].losses < u32::MAX)
}

/// The ids of the losing sides of the matches `ms` under results `res`,
/// match by match, each side in team order.
pub open spec fn losers_seq(ms: Seq<GameMatch>, res: Map<MatchId, Team>) -> Seq<PlayerId>
    decreases ms.len(),
{
    if ms.len() == 0 {
        Seq::empty()
    } else {
        losers_seq(ms.drop_last(), res) + losers_of(ms.last(), res[ms.last().id])
    }
}

/// In `l`, `a` occurs no later than `b` first does; an id absent from `l`
/// comes after every id present.
pub open spec fn loses_first(l: Seq<PlayerId>, a: PlayerId, b: PlayerId) -> bool {
    forall|q: int| 0 <= q < l.len() && l[q] == b ==> exists|p: int| 0 <= p <= q && l[p] == a
}

/// The ids `s` follow the order in which they first occur in `l`, ids
/// absent from `l` last.
pub open spec fn in_loss_order(l: Seq<PlayerId>, s: Seq<PlayerId>) -> bool {
    forall|i: int, j: int| 0 <= i < j < s.len() ==> loses_first(l, #[trigger] s[i], #[trigger] s[j])
}

/// `k` is the first position of `x` in `l`, or the length of `l` if absent.
pub open spec fn first_pos(l: Seq<PlayerId>, x: PlayerId, k: int) -> bool {
    &&& 0 <= k <= l.len()
    &&& forall|q: int| 0 <= q < k ==> l[q] != x
    &&& k < l.len() ==> l[k] == x
}

proof fn lemma_positions_order(l: Seq<PlayerId>, a: PlayerId, b: PlayerId, ka: int, kb: int)
    requires
        first_pos(l, a, ka),
        first_pos(l, b, kb),
        ka <= kb,
    ensures
        loses_first(l, a, b),
{
    assert forall|q: int| 0 <= q < l.len() && l[q] == b implies exists|p: int|
        0 <= p <= q && l[p] == a by {
        assert(q >= kb);
        assert(l[ka] == a);
    }
}

proof fn lemma_order_through(l: Seq<PlayerId>, c: PlayerId, a: PlayerId, b: PlayerId, kc: int, ka: int)
    requires
        first_pos(l, c, kc),
        first_pos(l, a, ka),
        kc <= ka,
        loses_first(l, a, b),
    ensures
        loses_first(l, c, b),
{
    assert forall|q: int| 0 <= q < l.len() && l[q] == b implies exists|p: int|
        0 <= p <= q && l[p] == c by {
        let p = choose|p: int| 0 <= p <= q && l[p] == a;
        assert(p >= ka);
        assert(l[kc] == c);
    }
}

/// First position of `x` in `l`, or the length of `l` if absent.
fn position_in(l: &Vec<PlayerId>, x: PlayerId) -> (k: usize)
    ensures
        first_pos(l@, x, k as int),
{
    let mut k: usize = 0;
    while k < l.len()
        invariant
            k <= l@.len(),
            forall|q: int| 0 <= q < k ==> l@[q] != x,
        decreases l@.len() - k,
    {
        if l[k] == x {
            return k;
        }
        k = k + 1;
    }
    k
}

/// The losing sides of the matches, match by match.
fn losing_ids(ms: &Vec<GameMatch>, res: &HashMap<MatchId, Team>) -> (r: Vec<PlayerId>)
    requires
        results_complete(ms@, res@),
    ensures
        r@ == losers_seq(ms@, res@),
{
    let mut r: Vec<PlayerId> = Vec::new();
    let mut i: usize = 0;
    while i < ms.len()
        invariant
            i <= ms@.len(),
            results_complete(ms@, res@),
            r@ == losers_seq(ms@.subrange(0, i as int), res@),
        decreases ms@.len() - i,
    {
        let w = match res.get(&ms[i].id) {
            Some(w) => *w,
            None => {
                assert(res@.contains_key(ms@[i as int].id));
                return r;
            },
        };
        let mut side = match w {
            Team::One => ms[i].team_2.clone(),
            Team::Two => ms[i].team_1.clone(),
        };
        let ghost before = r@;
        r.append(&mut side);
        proof {
            assert(ms@.subrange(0, i + 1).drop_last() =~= ms@.subrange(0, i as int));
            assert(ms@.subrange(0, i + 1).last() == ms@[i as int]);
        }
        i = i + 1;
    }
    proof {
        assert(ms@.subrange(0, ms@.len() as int) =~= ms@);
    }
    r
}

/// The players of `s` reordered by the first position of their id in `l`,
/// players whose id is absent last.
fn order_by_loss(s: Vec<Player>, l: &Vec<PlayerId>) -> (r: Vec<Player>)
    ensures
        models(r@).to_multiset() == models(s@).to_multiset(),
        r@.len() == s@.len(),
        in_loss_order(l@, ids_of(r@)),
{
    let ghost s0 = s@;
    let mut rest = s;
    let mut r: Vec<Player> = Vec::new();
    while rest.len() > 0
        invariant
            r@.len() + rest@.len() == s0.len(),
            (models(r@) + models(rest@)).to_multiset() == models(s0).to_multiset(),
            forall|i: int, j: int|
                0 <= i < j < r@.len() ==> loses_first(l@, #[trigger] r@[i].id, #[trigger] r@[j].id),
            forall|i: int, k: int|
                0 <= i < r@.len() && 0 <= k < rest@.len() ==> loses_first(
                    l@,
                    #[trigger] r@[i].id,
                    #[trigger] rest@[k].id,
                ),
        decreases rest@.len(),
    {
        let mut m: usize = 0;
        let mut km = position_in(l, rest[0].id);
        let mut q: usize = 1;
        while q < rest.len()
            invariant
                1 <= q <= rest@.len(),
                m < rest@.len(),
                first_pos(l@, rest@[m as int].id, km as int),
                forall|x: int| 0 <= x < q ==> loses_first(l@, rest@[m as int].id, #[trigger] rest@[x].id),
            decreases rest@.len() - q,
        {
            let kq = position_in(l, rest[q].id);
            let ghost prev_id = rest@[m as int].id;
            let ghost prev_k = km;
            if kq < km {
                m = q;
                km = kq;
                proof {
                    assert forall|x: int| 0 <= x < q implies loses_first(
                        l@,
                        rest@[m as int].id,
                        #[trigger] rest@[x].id,
                    ) by {
                        lemma_order_through(l@, rest@[q as int].id, prev_id, rest@[x].id, kq as int, prev_k as int);
                    }
                }
            }
            proof {
                lemma_positions_order(l@, rest@[m as int].id, rest@[q as int].id, km as int, kq as int);
            }
            q = q + 1;
        }
        let ghost rest0 = rest@;
        let ghost r0 = r@;
        let x = rest.remove(m);
        r.push(x);
        proof {
            assert(models(rest@) =~= models(rest0).remove(m as int));
            assert(models(r@) =~= models(r0).push(x@));
            vstd::seq_lib::lemma_multiset_commutative(models(r0), models(rest0));
            vstd::seq_lib::lemma_multiset_commutative(models(r@), models(rest@));
            assert(models(rest0)[m as int] == x@);
            assert((models(r@) + models(rest@)).to_multiset() =~= (models(r0) + models(
                rest0,
            )).to_multiset());
            assert forall|k: int| 0 <= k < rest@.len() implies #[trigger] rest@[k] == rest0[if k
                < m {
                k
            } else {
                k + 1
            }] by {}
        }
    }
    proof {
        assert(models(r@) + models(rest@) =~= models(r@));
        assert forall|i: int, j: int| 0 <= i < j < ids_of(r@).len() implies loses_first(
            l@,
            #[trigger] ids_of(r@)[i],
            #[trigger] ids_of(r@)[j],
        ) by {
            assert(loses_first(l@, r@[i].id, r@[j].id));
        }
    }
    r
}

/// `f` is `o` after its group round was processed.
pub open spec fn round_processed(o: Tournament, f: Tournament) -> bool {
    let upd = updated_roster(o);
    let kept = upd.filter(|m: PlayerModel| !m.eliminated);
    let out = upd.filter(|m: PlayerModel| m.eliminated);
    &&& models(f.players@) == kept
    &&& models(f.last_eliminated_players@).to_multiset() == out.to_multiset()
    &&& in_loss_order(
        losers_seq(o.matches@, o.match_results@),
        ids_of(f.last_eliminated_players@),
    )
    &&& models(f.eliminated_players@) == models(o.eliminated_players@) + models(
        f.last_eliminated_players@,
    )
    &&& f.matches@.len() == 0
    &&& f.unused_players@.len() == 0
    &&& f.match_results@ == Map::<MatchId, Team>::empty()
    &&& f.state == if kept.len() <= bracket_size(o.mode) {
        TournamentState::FinalSelection
    } else {
        TournamentState::GroupPlay
    }
    &&& f == (Tournament {
        players: f.players,
        eliminated_players: f.eliminated_players,
        last_eliminated_players: f.last_eliminated_players,
        matches: f.matches,
        unused_players: f.unused_players,
        match_results: f.match_results,
        state: f.state,
        ..o
    })
}

/// Whether every match of `ms` has a recorded winner.
pub(crate) fn all_results_in(ms: &Vec<GameMatch>, res: &HashMap<MatchId, Team>) -> (r: bool)
    ensures
        r == results_complete(ms@, res@),
{
    let mut i: usize = 0;
    while i < ms.len()
        invariant
            i <= ms@.len(),
            forall|x: int| 0 <= x < i ==> res@.contains_key(#[trigger] ms@[x].id),
        decreases ms@.len() - i,
    {
        if !res.contains_key(&ms[i].id) {
            return false;
        }
        i = i + 1;
    }
    true
}

/// An id of `team` that belongs to no player of `s`, if any.
fn unlisted_in(team: &Vec<PlayerId>, s: &Vec<Player>) -> (r: Option<PlayerId>)
    ensures
        match r {
            Some(x) => team@.contains(x) && !has_id(s@, x),
            None => forall|q: int| 0 <= q < team@.len() ==> has_id(s@, #[trigger] team@[q]),
        },
{
    let mut q: usize = 0;
    while q < team.len()
        invariant
            q <= team@.len(),
            forall|x: int| 0 <= x < q ==> has_id(s@, #[trigger] team@[x]),
        decreases team@.len() - q,
    {
        if find_player(s, team[q]).is_none() {
            return Some(team[q]);
        }
        q = q + 1;
    }
    None
}

/// A player id of the matches `ms` that belongs to no player of `s`, if any.
pub(crate) fn unlisted_player(ms: &Vec<GameMatch>, s: &Vec<Player>) -> (r: Option<PlayerId>)
    ensures
        match r {
            Some(x) => !has_id(s@, x) && exists|i: int|
                0 <= i < ms@.len() && (ms@[i].team_1@.contains(x) || ms@[i].team_2@.contains(x)),
            None => participants_listed(ms@, s@),
        },
{
    let mut i: usize = 0;
    while i < ms.len()
        invariant
            i <= ms@.len(),
            forall|x: int, q: int|
                0 <= x < i && 0 <= q < ms@[x].team_1@.len() ==> has_id(
                    s@,
                    #[trigger] ms@[x].team_1@[q],
                ),
            forall|x: int, q: int|
                0 <= x < i && 0 <= q < ms@[x].team_2@.len() ==> has_id(
                    s@,
                    #[trigger] ms@[x].team_2@[q],
                ),
        decreases ms@.len() - i,
    {
        match unlisted_in(&ms[i].team_1, s) {
            Some(x) => {
                return Some(x);
            },
            None => {},
        }
        match unlisted_in(&ms[i].team_2, s) {
            Some(x) => {
                return Some(x);
            },
            None => {},
        }
        i = i + 1;
    }
    None
}

/// Whether `id` is on the winning (`winning`) or losing side of some match.
pub(crate) fn on_side(ms: &Vec<GameMatch>, res: &HashMap<MatchId, Team>, id: PlayerId, winning: bool) -> (r:
    bool)
    requires
        results_complete(ms@, res@),
    ensures
        winning ==> r == wins_round(ms@, res@, id),
        !winning ==> r == loses_round(ms@, res@, id),
{
    let mut i: usize = 0;
    while i < ms.len()
        invariant
            i <= ms@.len(),
            results_complete(ms@, res@),
            winning ==> forall|x: int|
                0 <= x < i ==> !winners_of(#[trigger] ms@[x], res@[ms@[x].id]).contains(id),
            !winning ==> forall|x: int|
                0 <= x < i ==> !losers_of(#[trigger] ms@[x], res@[ms@[x].id]).contains(id),
        decreases ms@.len() - i,
    {
        let w = match res.get(&ms[i].id) {
            Some(w) => *w,
            None => {
                assert(res@.contains_key(ms@[i as int].id));
                return false;
            },
        };
        let team_1_won = match w {
            Team::One => true,
            Team::Two => false,
        };
        let side = if team_1_won == winning {
            &ms[i].team_1
        } else {
            &ms[i].team_2
        };
        if crate::final_selection::holds(side.as_slice(), id) {
            return true;
        }
        i = i + 1;
    }
    false
}

/// Processes the results of the current group round. Each player on a
/// losing side gets a loss, and is eliminated on reaching the maximum; each
/// player on a winning side gets a win. Players flagged eliminated leave the
/// roster for the eliminated lists. With no more players than the bracket
/// holds, the tournament moves to final selection.
pub fn process_group_play_results(tournament: &mut Tournament) -> (r: Result<(), TournamentError>)
    requires
        result_room(*old(tournament)),
    ensures
        old(tournament).state != TournamentState::GroupPlay ==> r == Err::<(), TournamentError>(
            TournamentError::InvalidState,
        ),
        old(tournament).state == TournamentState::GroupPlay && !results_complete(
            old(tournament).matches@,
            old(tournament).match_results@,
        ) ==> r == Err::<(), TournamentError>(TournamentError::IncompleteResults),
        old(tournament).state == TournamentState::GroupPlay && results_complete(
            old(tournament).matches@,
            old(tournament).match_results@,
        ) && !participants_listed(old(tournament).matches@, old(tournament).players@) ==> exists|
            x: PlayerId,
        | r == Err::<(), TournamentError>(TournamentError::PlayerNotFound(x)) && !has_id(
            old(tournament).players@,
            x,
        ),
        old(tournament).state == TournamentState::GroupPlay && results_complete(
            old(tournament).matches@,
            old(tournament).match_results@,
        ) && participants_listed(old(tournament).matches@, old(tournament).players@) ==> r is Ok,
        r is Err ==> *final(tournament) == *old(tournament),
        r is Ok ==> round_processed(*old(tournament), *final(tournament)),
        r is Ok ==> final(tournament).players@.len() + final(tournament).eliminated_players@.len()
            == old(tournament).players@.len() + old(tournament).eliminated_players@.len(),
        forward_step(old(tournament).state, final(tournament).state),
{
    if tournament.state != TournamentState::GroupPlay {
        return Err(TournamentError::InvalidState);
    }
    if !all_results_in(&tournament.matches, &tournament.match_results) {
        return Err(TournamentError::IncompleteResults);
    }
    match unlisted_player(&tournament.matches, &tournament.players) {
        Some(x) => {
            return Err(TournamentError::PlayerNotFound(x));
        },
        None => {},
    }
    let ghost o = *tournament;
    let ghost upd = updated_roster(o);
    let ghost keep = |m: PlayerModel| !m.eliminated;
    let ghost drop = |m: PlayerModel| m.eliminated;
    let max_losses = tournament.max_losses;
    let mut kept: Vec<Player> = Vec::new();
    let mut out: Vec<Player> = Vec::new();
    let mut j: usize = 0;
    while j < tournament.players.len()
        invariant
            *tournament == o,
            max_losses == o.max_losses,
            results_complete(o.matches@, o.match_results@),
            result_room(o),
            upd == updated_roster(o),
            keep == (|m: PlayerModel| !m.eliminated),
            drop == (|m: PlayerModel| m.eliminated),
            j <= o.players@.len(),
            models(kept@) == upd.subrange(0, j as int).filter(keep),
            models(out@) == upd.subrange(0, j as int).filter(drop),
            kept@.len() + out@.len() == j,
        decreases o.players@.len() - j,
    {
        let mut p = tournament.players[j].duplicate();
        let won = on_side(&tournament.matches, &tournament.match_results, p.id, true);
        let lost = on_side(&tournament.matches, &tournament.match_results, p.id, false);
        if lost {
            p.add_loss();
            if p.losses >= max_losses {
                p.eliminate();
            }
        }
        if won {
            p.add_win();
        }
        let ghost prefix = upd.subrange(0, j as int);
        proof {
            assert(p@ == upd[j as int]);
            assert(upd.subrange(0, j + 1) =~= prefix.push(p@));
            prefix.lemma_filter_push(p@, keep);
            prefix.lemma_filter_push(p@, drop);
        }
        if p.eliminated {
            let ghost before = out@;
            out.push(p);
            proof {
                assert(models(out@) =~= models(before).push(p@));
            }
        } else {
            let ghost before = kept@;
            kept.push(p);
            proof {
                assert(models(kept@) =~= models(before).push(p@));
            }
        }
        j = j + 1;
    }
    proof {
        assert(upd.subrange(0, upd.len() as int) =~= upd);
    }
    let lost = losing_ids(&tournament.matches, &tournament.match_results);
    let out = order_by_loss(out, &lost);
    let mut newly: Vec<Player> = Vec::new();
    let mut i: usize = 0;
    while i < out.len()
        invariant
            i <= out@.len(),
            models(newly@) == models(out@.subrange(0, i as int)),
        decreases out@.len() - i,
    {
        let c = out[i].duplicate();
        let ghost before = newly@;
        newly.push(c);
        proof {
            assert(models(newly@) =~= models(before).push(c@));
            assert(models(newly@) =~= models(out@.subrange(0, i + 1)));
        }
        i = i + 1;
    }
    proof {
        assert(out@.subrange(0, out@.len() as int) =~= out@);
    }
    let ghost elim0 = tournament.eliminated_players@;
    tournament.eliminated_players.append(&mut newly);
    proof {
        assert(models(tournament.eliminated_players@) =~= models(elim0) + models(out@));
    }
    tournament.players = kept;
    tournament.last_eliminated_players = out;
    tournament.matches = Vec::new();
    tournament.unused_players = Vec::new();
    tournament.match_results.clear();
    if tournament.players.len() <= tournament.players_required_for_semi() {
        tournament.state = TournamentState::FinalSelection;
    }
    Ok(())
}

/// Records (or replaces) `team` as the winner of the current group match
/// `match_id`.
pub fn set_match_winner(tournament: &mut Tournament, match_id: MatchId, team: Team) -> (r: Result<
    (),
    TournamentError,
>)
    ensures
        (exists|i: int|
            0 <= i < old(tournament).matches@.len() && old(tournament).matches@[i].id == match_id)
            ==> r is Ok && *final(tournament) == (Tournament {
            match_results: final(tournament).match_results,
            ..*old(tournament)
        }) && final(tournament).match_results@ == old(tournament).match_results@.insert(
            match_id,
            team,
        ),
        !(exists|i: int|
            0 <= i < old(tournament).matches@.len() && old(tournament).matches@[i].id == match_id)
            ==> r == Err::<(), TournamentError>(TournamentError::InvalidState) && *final(tournament)
            == *old(tournament),
{
    let mut i: usize = 0;
    while i < tournament.matches.len()
        invariant
            *tournament == *old(tournament),
            i <= tournament.matches@.len(),
            forall|x: int| 0 <= x < i ==> tournament.matches@[x].id != match_id,
        decreases tournament.matches@.len() - i,
    {
        if tournament.matches[i].id == match_id {
            assert(old(tournament).matches@[i as int].id == match_id);
            tournament.match_results.insert(match_id, team);
            return Ok(());
        }
        i = i + 1;
    }
    Err(TournamentError::InvalidState)
}

/// When the active players of a roster have distinct ids, a round generated
/// from it names no player twice among the sit-outs and the match teams.
pub proof fn lemma_generated_round_no_player_twice(o: Tournament, f: Tournament)
    requires
        round_generated(o, f),
        forall|x: PlayerId| active_ids(o.players@).count(x) <= 1,
    ensures
        (ids_of(f.unused_players@) + participants(f.matches@)).no_duplicates(),
{
    let s = ids_of(f.unused_players@) + participants(f.matches@);
    assert forall|x: PlayerId| s.to_multiset().contains(x) implies s.to_multiset().count(x)
        == 1 by {
        assert(active_ids(o.players@).count(x) <= 1);
    }
    s.lemma_multiset_has_no_duplicates_conv();
}

/// Some player of `before` has the id of `p` and no more losses than `p`.
pub open spec fn losses_kept_from(before: Seq<Player>, p: Player) -> bool {
    exists|j: int| 0 <= j < before.len() && p.id == before[j].id && p.losses >= before[j].losses
}

/// A group round never lowers a loss count: each player left on the roster
/// or newly eliminated has at least the losses of the roster player with the
/// same id before the round.
pub proof fn lemma_group_round_keeps_losses(o: Tournament, f: Tournament)
    requires
        round_processed(o, f),
        result_room(o),
    ensures
        forall|i: int|
            0 <= i < f.players@.len() ==> losses_kept_from(o.players@, #[trigger] f.players@[i]),
        forall|i: int|
            0 <= i < f.last_eliminated_players@.len() ==> losses_kept_from(
                o.players@,
                #[trigger] f.last_eliminated_players@[i],
            ),
{
    let upd = updated_roster(o);
    let keep = |m: PlayerModel| !m.eliminated;
    let drop = |m: PlayerModel| m.eliminated;
    assert forall|i: int| 0 <= i < f.players@.len() implies losses_kept_from(
        o.players@,
        #[trigger] f.players@[i],
    ) by {
        let m = models(f.players@)[i];
        assert(m == f.players@[i]@);
        assert(upd.filter(keep).contains(m));
        upd.lemma_filter_contains_rev(keep, m);
        let j = choose|j: int| 0 <= j < upd.len() && upd[j] == m;
        assert(f.players@[i].id == o.players@[j].id);
    }
    assert forall|i: int| 0 <= i < f.last_eliminated_players@.len() implies losses_kept_from(
        o.players@,
        #[trigger] f.last_eliminated_players@[i],
    ) by {
        let m = models(f.last_eliminated_players@)[i];
        assert(m == f.last_eliminated_players@[i]@);
        assert(models(f.last_eliminated_players@).contains(m));
        assert(models(f.last_eliminated_players@).to_multiset().count(m) > 0);
        assert(upd.filter(drop).to_multiset().count(m) > 0);
        assert(upd.filter(drop).contains(m));
        upd.lemma_filter_contains_rev(drop, m);
        let j = choose|j: int| 0 <= j < upd.len() && upd[j] == m;
        assert(f.last_eliminated_players@[i].id == o.players@[j].id);
    }
}

} // verus!
