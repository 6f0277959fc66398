use vstd::prelude::*;
use crate::bits::ones;
use crate::board::{lemma_tally_range, tally, Board, Position};
use crate::grid::{filled_values, lemma_filled_values};
use crate::mov::Move;
use crate::solver::{
    lemma_value_is_best, lemma_value_is_score, reply, value, FORCED_MOVE_DEPTH,
};

verus! {

/// A legal move puts one more piece on the board, and leaves a well-formed position.
pub proof fn lemma_legal_move_adds_a_piece(pos: Position, m: Move)
    requires
        pos.wf(),
        pos.legal(m),
    ensures
        pos.after(m).wf(),
        ones(pos.after(m).pieces) == ones(pos.pieces) + 1,
{
    pos.lemma_after(m);
}

/// After a legal move the filled tiles of before are still filled, with their values, and
/// no value is the value of two filled tiles.
pub proof fn lemma_legal_move_keeps_tiles(pos: Position, m: Move)
    requires
        pos.valid(),
        pos.legal(m),
    ensures
        pos.played().subset_of(pos.after(m).played()),
        pos.after(m).played() == pos.played().union(pos.new_tiles(m)),
        pos.new_tiles(m).disjoint(pos.played()),
        pos.after(m).valid(),
{
    pos.lemma_after(m);
}

/// The score of a valid position is not beyond the number of values that are played.
pub proof fn lemma_score_within_played(pos: Position)
    requires
        pos.valid(),
    ensures
        pos.played().finite(),
        -pos.played().len() <= pos.score() <= pos.played().len(),
{
    let values = filled_values(pos.pieces, pos.black, 64);
    let ints = values.map_values(|v: u8| v as int);
    lemma_filled_values(pos.pieces, pos.black);
    lemma_tally_range(values, pos.owned);
    assert(ints.no_duplicates());
    assert(ints.to_set() =~= pos.played()) by {
        assert forall|v: int| ints.to_set().contains(v) implies pos.played().contains(v) by {
            let k = choose|k: int| 0 <= k < ints.len() && ints[k] == v;
            assert(values[k] == v);
        }
        assert forall|v: int| pos.played().contains(v) implies ints.to_set().contains(v) by {
            let k = choose|k: int| 0 <= k < values.len() && #[trigger] values[k] == v;
            assert(ints[k] == v);
        }
    }
    ints.unique_seq_to_set();
}

/// Two well-formed players with the same tile values have the same favorite colour,
/// whatever the boards that they play on.
pub proof fn lemma_favorite_color_of_tiles(a: Board, b: Board)
    requires
        a.wf(),
        b.wf(),
        a.current_player.owned() == b.current_player.owned(),
    ensures
        a.current_player.favorite_color == b.current_player.favorite_color,
{
}

/// The tile values of a list, as a set.
pub open spec fn value_set(values: Seq<u8>) -> Set<int> {
    Set::new(|v: int| exists|k: int| 0 <= k < values.len() && #[trigger] values[k] == v)
}

/// The score that a list of different tile values gives is the number of its values that
/// are owned, less the number of those that are not.
pub proof fn lemma_tally_of_sets(values: Seq<u8>, owned: Set<int>)
    requires
        values.no_duplicates(),
    ensures
        value_set(values).finite(),
        value_set(values).len() == values.len(),
        tally(values, owned) == value_set(values).intersect(owned).len() - value_set(
            values,
        ).difference(owned).len(),
    decreases values.len(),
{
    let all = value_set(values);
    if values.len() == 0 {
        assert(all =~= Set::<int>::empty());
        assert(all.intersect(owned) =~= Set::<int>::empty());
        assert(all.difference(owned) =~= Set::<int>::empty());
    } else {
        let init = values.drop_last();
        let last = values.last() as int;
        let before = value_set(init);
        lemma_tally_of_sets(init, owned);
        assert(!before.contains(last)) by {
            if before.contains(last) {
                let k = choose|k: int| 0 <= k < init.len() && #[trigger] init[k] == last;
                assert(values[k] == values[values.len() - 1]);
            }
        }
        assert(all =~= before.insert(last)) by {
            assert forall|v: int| all.contains(v) implies before.insert(last).contains(v) by {
                let k = choose|k: int| 0 <= k < values.len() && #[trigger] values[k] == v;
                if k < init.len() {
                    assert(init[k] == v);
                }
            }
            assert forall|v: int| before.insert(last).contains(v) implies all.contains(v) by {
                if v == last {
                    assert(values[values.len() - 1] == v);
                } else {
                    let k = choose|k: int| 0 <= k < init.len() && #[trigger] init[k] == v;
                    assert(values[k] == v);
                }
            }
        }
        vstd::set_lib::lemma_len_intersect(before, owned);
        vstd::set_lib::lemma_len_difference(before, owned);
        if owned.contains(last) {
            assert(all.intersect(owned) =~= before.intersect(owned).insert(last));
            assert(all.difference(owned) =~= before.difference(owned));
        } else {
            assert(all.intersect(owned) =~= before.intersect(owned));
            assert(all.difference(owned) =~= before.difference(owned).insert(last));
        }
    }
}

/// Where each player owns eight of the sixteen tile values and no two filled tiles have
/// one value, no score is beyond 8.
pub proof fn lemma_score_within_eight(pos: Position)
    requires
        pos.valid(),
        pos.owned.len() == 8,
    ensures
        -8 <= pos.score() <= 8,
{
    let values = filled_values(pos.pieces, pos.black, 64);
    let all = value_set(values);
    let theirs = crate::tileset::all_tiles().difference(pos.owned);
    lemma_filled_values(pos.pieces, pos.black);
    lemma_tally_of_sets(values, pos.owned);
    lemma_sixteen(pos.owned);
    assert(all.difference(pos.owned).subset_of(theirs)) by {
        assert forall|v: int| all.difference(pos.owned).contains(v) implies theirs.contains(v) by {
            let k = choose|k: int| 0 <= k < values.len() && #[trigger] values[k] == v;
        }
    }
    vstd::set_lib::lemma_len_subset(all.intersect(pos.owned), pos.owned);
    vstd::set_lib::lemma_len_subset(all.difference(pos.owned), theirs);
    vstd::set_lib::lemma_len_intersect(all, pos.owned);
    vstd::set_lib::lemma_len_difference(all, pos.owned);
}

/// Who owns eight of the sixteen tile values leaves eight to the other.
pub proof fn lemma_sixteen(owned: Set<int>)
    requires
        owned.subset_of(crate::tileset::all_tiles()),
        owned.len() == 8,
    ensures
        owned.finite(),
        crate::tileset::all_tiles().difference(owned).finite(),
        crate::tileset::all_tiles().difference(owned).len() == 8,
{
    let all = crate::tileset::all_tiles();
    let rest = all.difference(owned);
    vstd::set_lib::lemma_int_range(0, 16);
    assert(all =~= vstd::set_lib::set_int_range(0, 16));
    vstd::set_lib::lemma_len_subset(owned, all);
    vstd::set_lib::lemma_len_difference(all, owned);
    vstd::set_lib::lemma_set_disjoint_lens(owned, rest);
    assert(owned + rest =~= all);
    assert(owned.disjoint(rest));
}

/// Where each player owns eight of the sixteen tile values and no two filled tiles have
/// one value, no value of a search is beyond 8.
pub proof fn lemma_value_within_eight(pos: Position, depth: nat, forced: bool)
    requires
        pos.valid(),
        pos.owned.len() == 8,
    ensures
        -8 <= value(pos, depth, forced) <= 8,
    decreases depth,
{
    lemma_score_within_eight(pos);
    if depth > 0 && exists|m: Move| pos.is_child(forced, m) {
        lemma_value_is_best(pos, depth, forced);
        let v = value(pos, depth, forced);
        let m = choose|m: Move| pos.is_child(forced, m) && reply(pos, depth, m) == v;
        assert(pos.legal(m));
        pos.lemma_after(m);
        lemma_sixteen(pos.owned);
        lemma_value_within_eight(pos.after(m), (depth - 1) as nat, depth - 1 <= FORCED_MOVE_DEPTH);
    } else {
        lemma_value_is_score(pos, depth, forced);
    }
}

} // verus!
