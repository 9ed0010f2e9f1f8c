//! Pruning a field of competitors down to those a rating can be fitted for.
//!
//! A competitor with no win weight at all against the field, or with no loss
//! weight at all, has no finite best rating. Taking such a competitor out can
//! leave others without wins or losses, so the pruning repeats until nobody
//! else has to go. What is left is the largest part of the field in which
//! everyone has both win and loss weight against that part.

use vstd::prelude::*;
use vstd::set_lib::{lemma_int_range, lemma_len_subset, set_int_range};
use crate::player::{Player, PlayerView};

verus! {

/// Twice the total win weight and twice the total loss weight of one
/// competitor against a set of opponents.
pub struct Standing {
    pub doubled_wins: nat,
    pub doubled_losses: nat,
}

impl Standing {
    /// There is weight on both sides.
    pub open spec fn rankable(self) -> bool {
        self.doubled_wins > 0 && self.doubled_losses > 0
    }
}

/// The standing of `who` against those of the first `upto` competitors of
/// `field` whose position is in `among`.
pub open spec fn standing_among(who: PlayerView, field: Seq<Player>, among: Set<int>, upto: int)
    -> Standing
    decreases upto,
{
    if upto <= 0 {
        Standing { doubled_wins: 0, doubled_losses: 0 }
    } else {
        let earlier = standing_among(who, field, among, upto - 1);
        if among.contains(upto - 1) {
            Standing {
                doubled_wins: earlier.doubled_wins + who.doubled_win_weight(field[upto - 1]@),
                doubled_losses: earlier.doubled_losses + who.doubled_loss_weight(
                    field[upto - 1]@,
                ),
            }
        } else {
            earlier
        }
    }
}

/// Every position in `among` is a position of `field`, and the competitor
/// there has win weight and loss weight against the competitors in `among`.
pub open spec fn self_sufficient(field: Seq<Player>, among: Set<int>) -> bool {
    forall|who: int| #[trigger]
        among.contains(who) ==> 0 <= who < field.len() && standing_among(
            field[who]@,
            field,
            among,
            field.len() as int,
        ).rankable()
}

/// The positions that belong to some self-sufficient set. This is itself
/// self-sufficient, and so the largest such set.
pub open spec fn rankable_positions(field: Seq<Player>) -> Set<int> {
    Set::new(
        |who: int|
            exists|among: Set<int>| self_sufficient(field, among) && #[trigger] among.contains(who),
    )
}

/// All positions of a sequence of the given length.
pub open spec fn every_position(len: nat) -> Set<int> {
    Set::new(|position: int| 0 <= position < len)
}

/// The elements of `all` whose position is in `keep`, in their order.
pub open spec fn kept_of<T>(all: Seq<T>, keep: Set<int>) -> Seq<T>
    decreases all.len(),
{
    if all.len() == 0 {
        Seq::empty()
    } else {
        let earlier = kept_of(all.drop_last(), keep);
        if keep.contains(all.len() - 1) {
            earlier.push(all.last())
        } else {
            earlier
        }
    }
}

/// What one round of removal leaves of `among`: the positions whose
/// competitor has win weight and loss weight against `among`.
pub open spec fn after_round(field: Seq<Player>, among: Set<int>) -> Set<int> {
    Set::new(
        |who: int|
            among.contains(who) && standing_among(
                field[who]@,
                field,
                among,
                field.len() as int,
            ).rankable(),
    )
}

/// What is left of the whole field after the given number of rounds.
pub open spec fn after_rounds(field: Seq<Player>, rounds: nat) -> Set<int>
    decreases rounds,
{
    if rounds == 0 {
        every_position(field.len())
    } else {
        after_round(field, after_rounds(field, (rounds - 1) as nat))
    }
}

/// The positions that a vector of flags marks.
spec fn flagged(flags: Seq<bool>) -> Set<int> {
    Set::new(|position: int| 0 <= position < flags.len() && flags[position])
}

/// How many flags are set.
spec fn count_flagged(flags: Seq<bool>) -> nat
    decreases flags.len(),
{
    if flags.len() == 0 {
        0
    } else if flags.last() {
        count_flagged(flags.drop_last()) + 1
    } else {
        count_flagged(flags.drop_last())
    }
}

/// Clearing a flag that was set leaves one flag fewer.
proof fn lemma_clearing_a_flag(flags: Seq<bool>, position: int)
    requires
        0 <= position < flags.len(),
        flags[position],
    ensures
        count_flagged(flags.update(position, false)) + 1 == count_flagged(flags),
    decreases flags.len(),
{
    let cleared = flags.update(position, false);
    if position == flags.len() - 1 {
        assert(cleared.drop_last() =~= flags.drop_last());
    } else {
        assert(cleared.drop_last() =~= flags.drop_last().update(position, false));
        lemma_clearing_a_flag(flags.drop_last(), position);
    }
}

/// A standing is made of the competitors looked at and of nothing else.
proof fn lemma_standing_agrees(
    who: PlayerView,
    field_a: Seq<Player>,
    among_a: Set<int>,
    field_b: Seq<Player>,
    among_b: Set<int>,
    upto: int,
)
    requires
        forall|position: int|
            0 <= position < upto ==> (among_a.contains(position) <==> among_b.contains(position)),
        forall|position: int|
            0 <= position < upto && among_a.contains(position) ==> field_a[position]
                == field_b[position],
    ensures
        standing_among(who, field_a, among_a, upto) == standing_among(who, field_b, among_b, upto),
    decreases upto,
{
    if upto > 0 {
        lemma_standing_agrees(who, field_a, among_a, field_b, among_b, upto - 1);
    }
}

/// More opponents never take weight away.
pub proof fn lemma_standing_grows(
    who: PlayerView,
    field: Seq<Player>,
    fewer: Set<int>,
    more: Set<int>,
    upto: int,
)
    requires
        fewer.subset_of(more),
    ensures
        standing_among(who, field, fewer, upto).doubled_wins <= standing_among(
            who,
            field,
            more,
            upto,
        ).doubled_wins,
        standing_among(who, field, fewer, upto).doubled_losses <= standing_among(
            who,
            field,
            more,
            upto,
        ).doubled_losses,
    decreases upto,
{
    if upto > 0 {
        lemma_standing_grows(who, field, fewer, more, upto - 1);
    }
}

/// A competitor gains nothing from standing in the set itself: the standing
/// against a set is the standing against the others in it.
pub proof fn lemma_own_position_weightless(
    field: Seq<Player>,
    among: Set<int>,
    who: int,
    upto: int,
)
    requires
        0 <= who < field.len(),
    ensures
        standing_among(field[who]@, field, among, upto) == standing_among(
            field[who]@,
            field,
            among.remove(who),
            upto,
        ),
    decreases upto,
{
    if upto > 0 {
        lemma_own_position_weightless(field, among, who, upto - 1);
        crate::player::lemma_self_score_neutral(field[who]@);
    }
}

/// Every self-sufficient set lies within the rankable positions.
pub proof fn lemma_rankable_positions_largest(field: Seq<Player>, among: Set<int>)
    requires
        self_sufficient(field, among),
    ensures
        among.subset_of(rankable_positions(field)),
{
}

/// The rankable positions are self-sufficient: against the competitors at
/// those positions alone, each of them has win weight and loss weight.
pub proof fn lemma_rankable_positions_self_sufficient(field: Seq<Player>)
    ensures
        self_sufficient(field, rankable_positions(field)),
{
    let core = rankable_positions(field);
    assert forall|who: int| #[trigger] core.contains(who) implies 0 <= who < field.len()
        && standing_among(field[who]@, field, core, field.len() as int).rankable() by {
        let among = choose|among: Set<int>|
            self_sufficient(field, among) && #[trigger] among.contains(who);
        lemma_rankable_positions_largest(field, among);
        lemma_standing_grows(field[who]@, field, among, core, field.len() as int);
    }
}

/// A competitor without win weight or without loss weight against a set
/// that holds all rankable positions is not at a rankable position: taking
/// such competitors out, in any order, never takes out a rankable one.
pub proof fn lemma_unrankable_is_outside(field: Seq<Player>, among: Set<int>, who: int)
    requires
        rankable_positions(field).subset_of(among),
        0 <= who < field.len(),
        !standing_among(field[who]@, field, among, field.len() as int).rankable(),
    ensures
        !rankable_positions(field).contains(who),
{
    if rankable_positions(field).contains(who) {
        lemma_rankable_positions_self_sufficient(field);
        lemma_standing_grows(
            field[who]@,
            field,
            rankable_positions(field),
            among,
            field.len() as int,
        );
    }
}

/// Removing round after round, from the whole field, never removes a
/// rankable position; and once a round removes nobody, exactly the rankable
/// positions are left.
pub proof fn lemma_rounds_reach_rankable(field: Seq<Player>, rounds: nat)
    ensures
        rankable_positions(field).subset_of(after_rounds(field, rounds)),
        after_rounds(field, rounds).subset_of(every_position(field.len())),
        after_round(field, after_rounds(field, rounds)) == after_rounds(field, rounds)
            ==> after_rounds(field, rounds) == rankable_positions(field),
    decreases rounds,
{
    let left = after_rounds(field, rounds);
    if rounds == 0 {
        lemma_rankable_positions_self_sufficient(field);
    } else {
        let before = after_rounds(field, (rounds - 1) as nat);
        lemma_rounds_reach_rankable(field, (rounds - 1) as nat);
        assert forall|who: int| rankable_positions(field).contains(who) implies left.contains(
            who,
        ) by {
            lemma_rankable_positions_self_sufficient(field);
            if !standing_among(field[who]@, field, before, field.len() as int).rankable() {
                lemma_unrankable_is_outside(field, before, who);
            }
        }
    }
    if after_round(field, left) == left {
        assert forall|who: int| #[trigger] left.contains(who) implies 0 <= who < field.len()
            && standing_among(field[who]@, field, left, field.len() as int).rankable() by {
            assert(after_round(field, left).contains(who));
        }
        lemma_rankable_positions_largest(field, left);
        assert(left =~= rankable_positions(field));
    }
}

/// Until a round removes nobody, every round removes somebody: after
/// `rounds` rounds either the removal has come to rest or at least `rounds`
/// positions are gone.
proof fn lemma_rounds_shrink(field: Seq<Player>, rounds: nat)
    requires
        rounds <= field.len(),
    ensures
        after_rounds(field, rounds).finite(),
        after_round(field, after_rounds(field, rounds)) == after_rounds(field, rounds)
            || after_rounds(field, rounds).len() + rounds <= field.len(),
    decreases rounds,
{
    let left = after_rounds(field, rounds);
    if rounds == 0 {
        lemma_int_range(0, field.len() as int);
        assert(left =~= set_int_range(0, field.len() as int));
    } else {
        let before = after_rounds(field, (rounds - 1) as nat);
        lemma_rounds_shrink(field, (rounds - 1) as nat);
        lemma_len_subset(left, before);
        if forall|who: int| before.contains(who) ==> left.contains(who) {
            assert(left =~= before);
        } else {
            let gone = choose|who: int| before.contains(who) && !left.contains(who);
            lemma_len_subset(left, before.remove(gone));
        }
    }
}

/// After as many rounds as the field has competitors, a further round
/// removes nobody, and exactly the rankable positions are left.
pub proof fn lemma_rounds_settle(field: Seq<Player>)
    ensures
        after_round(field, after_rounds(field, field.len())) == after_rounds(field, field.len()),
        after_rounds(field, field.len()) == rankable_positions(field),
{
    let left = after_rounds(field, field.len());
    lemma_rounds_shrink(field, field.len());
    if left.len() == 0 {
        left.lemma_len0_is_empty();
        assert(after_round(field, left) =~= left);
    }
    lemma_rounds_reach_rankable(field, field.len());
}

/// A field in which everyone has win weight and loss weight against the
/// field loses nobody.
pub proof fn lemma_self_sufficient_field_is_kept(field: Seq<Player>)
    requires
        self_sufficient(field, every_position(field.len())),
    ensures
        kept_of(field, rankable_positions(field)) == field,
{
    lemma_rankable_positions_largest(field, every_position(field.len()));
    lemma_keeping_every_position(field, rankable_positions(field));
}

/// Keeping a set that holds every position keeps everything.
proof fn lemma_keeping_every_position<T>(all: Seq<T>, keep: Set<int>)
    requires
        every_position(all.len()).subset_of(keep),
    ensures
        kept_of(all, keep) == all,
    decreases all.len(),
{
    if all.len() > 0 {
        assert(every_position(all.len()).contains(all.len() - 1));
        assert forall|position: int|
            every_position(all.drop_last().len()).contains(position) implies keep.contains(
            position,
        ) by {
            assert(every_position(all.len()).contains(position));
        }
        lemma_keeping_every_position(all.drop_last(), keep);
        assert(all.drop_last().push(all.last()) =~= all);
    } else {
        assert(kept_of(all, keep) =~= all);
    }
}

/// Each element that is kept stood at a position that was to be kept.
proof fn lemma_kept_origin<T>(all: Seq<T>, keep: Set<int>, position: int) -> (origin: int)
    requires
        0 <= position < kept_of(all, keep).len(),
    ensures
        0 <= origin < all.len(),
        keep.contains(origin),
        all[origin] == kept_of(all, keep)[position],
    decreases all.len(),
{
    let earlier = kept_of(all.drop_last(), keep);
    if position < earlier.len() {
        lemma_kept_origin(all.drop_last(), keep, position)
    } else {
        all.len() - 1
    }
}

/// The standing against the competitors kept is the standing against the
/// positions kept.
proof fn lemma_standing_against_kept(
    who: PlayerView,
    field: Seq<Player>,
    keep: Set<int>,
)
    ensures
        standing_among(who, field, keep, field.len() as int) == standing_among(
            who,
            kept_of(field, keep),
            every_position(kept_of(field, keep).len()),
            kept_of(field, keep).len() as int,
        ),
    decreases field.len(),
{
    if field.len() > 0 {
        let shorter = field.drop_last();
        let kept = kept_of(field, keep);
        let kept_shorter = kept_of(shorter, keep);
        lemma_standing_against_kept(who, shorter, keep);
        lemma_standing_agrees(who, field, keep, shorter, keep, field.len() - 1);
        lemma_standing_agrees(
            who,
            kept,
            every_position(kept.len()),
            kept_shorter,
            every_position(kept_shorter.len()),
            kept_shorter.len() as int,
        );
    }
}

/// Whether `who` has win weight, and whether loss weight, against the
/// competitors whose flag is set.
fn weight_among(players: &Vec<Player>, alive: &Vec<bool>, who: usize) -> (found: (bool, bool))
    requires
        alive.len() == players.len(),
        who < players.len(),
    ensures
        found.0 == (standing_among(
            players@[who as int]@,
            players@,
            flagged(alive@),
            players.len() as int,
        ).doubled_wins > 0),
        found.1 == (standing_among(
            players@[who as int]@,
            players@,
            flagged(alive@),
            players.len() as int,
        ).doubled_losses > 0),
{
    let mut has_wins = false;
    let mut has_losses = false;
    let mut other: usize = 0;
    while other < players.len()
        invariant
            other <= players.len(),
            alive.len() == players.len(),
            who < players.len(),
            has_wins == (standing_among(
                players@[who as int]@,
                players@,
                flagged(alive@),
                other as int,
            ).doubled_wins > 0),
            has_losses == (standing_among(
                players@[who as int]@,
                players@,
                flagged(alive@),
                other as int,
            ).doubled_losses > 0),
        decreases players.len() - other,
    {
        if alive[other] {
            let score = players[who].get_score_against(&players[other]);
            if score.has_win_weight() {
                has_wins = true;
            }
            if score.has_loss_weight() {
                has_losses = true;
            }
        }
        other += 1;
    }
    (has_wins, has_losses)
}

/// Removes every competitor who is not at a rankable position, and keeps
/// the others in their order. Everyone who is left has win weight and loss
/// weight against those who are left.
pub fn remove_unrankable(players: &mut Vec<Player>)
    ensures
        final(players)@ == kept_of(old(players)@, rankable_positions(old(players)@)),
        self_sufficient(final(players)@, every_position(final(players)@.len())),
{
    let ghost field = players@;
    let count = players.len();
    let mut alive: Vec<bool> = Vec::new();
    while alive.len() < count
        invariant
            alive.len() <= count,
            forall|position: int| 0 <= position < alive.len() ==> alive@[position],
        decreases count - alive.len(),
    {
        alive.push(true);
    }
    loop
        invariant
            players@ == field,
            count == field.len(),
            alive.len() == count,
            rankable_positions(field).subset_of(flagged(alive@)),
        ensures
            players@ == field,
            count == field.len(),
            alive.len() == count,
            flagged(alive@) == rankable_positions(field),
        decreases count_flagged(alive@),
    {
        let ghost before = alive@;
        let mut removed_any = false;
        let mut who: usize = 0;
        while who < count
            invariant
                who <= count,
                players@ == field,
                count == field.len(),
                alive.len() == count,
                rankable_positions(field).subset_of(flagged(alive@)),
                removed_any ==> count_flagged(alive@) < count_flagged(before),
                !removed_any ==> alive@ == before,
                !removed_any ==> forall|earlier: int|
                    0 <= earlier < who && #[trigger] flagged(before).contains(earlier)
                        ==> standing_among(
                        field[earlier]@,
                        field,
                        flagged(before),
                        count as int,
                    ).rankable(),
            decreases count - who,
        {
            if alive[who] {
                let found = weight_among(players, &alive, who);
                if !(found.0 && found.1) {
                    proof {
                        lemma_unrankable_is_outside(field, flagged(alive@), who as int);
                        lemma_clearing_a_flag(alive@, who as int);
                    }
                    alive.set(who, false);
                    removed_any = true;
                }
            }
            who += 1;
        }
        if !removed_any {
            proof {
                lemma_rankable_positions_largest(field, flagged(alive@));
                assert(flagged(alive@) =~= rankable_positions(field));
            }
            break;
        }
    }
    let ghost keep = rankable_positions(field);
    let ghost tail: Seq<Player> = Seq::empty();
    let mut position: usize = count;
    assert(field.subrange(0, count as int) =~= field);
    while position > 0
        invariant
            position <= count,
            count == field.len(),
            alive.len() == count,
            flagged(alive@) == keep,
            players@ == field.subrange(0, position as int) + tail,
            kept_of(field, keep) == kept_of(field.subrange(0, position as int), keep) + tail,
        decreases position,
    {
        position -= 1;
        let ghost head = field.subrange(0, position as int + 1);
        assert(head.drop_last() =~= field.subrange(0, position as int));
        if alive[position] {
            proof {
                assert(keep.contains(position as int));
                tail = seq![field[position as int]] + tail;
                assert(players@ =~= field.subrange(0, position as int) + tail);
                assert(kept_of(head, keep) + tail.drop_first() =~= kept_of(
                    field.subrange(0, position as int),
                    keep,
                ) + tail);
            }
        } else {
            assert(!keep.contains(position as int));
            players.remove(position);
            assert(players@ =~= field.subrange(0, position as int) + tail);
        }
    }
    proof {
        assert(field.subrange(0, 0) =~= Seq::<Player>::empty());
        assert(players@ =~= kept_of(field, keep));
        lemma_rankable_positions_self_sufficient(field);
        let kept = players@;
        assert forall|who: int| #[trigger]
            every_position(kept.len()).contains(who) implies 0 <= who < kept.len()
            && standing_among(
            kept[who]@,
            kept,
            every_position(kept.len()),
            kept.len() as int,
        ).rankable() by {
            let origin = lemma_kept_origin(field, keep, who);
            lemma_standing_against_kept(field[origin]@, field, keep);
        }
    }
}

} // verus!
