use vstd::prelude::*;
use crate::constants::{SCORE_KING_COUNT, SCORE_MAX, SCORE_MIN};
use crate::move_gen::Move;
use crate::piece_list::{first_index, lemma_first_index, lemma_first_index_found};
use crate::state::{GameState, Position};

verus! {

/// A line of play: the best moves found so far, the next one first.
pub struct PVLine {
    pub moves: Vec<Move>,
}

impl View for PVLine {
    type V = Seq<Move>;

    open spec fn view(&self) -> Seq<Move> {
        self.moves@
    }
}

/// A line without its first move; an empty line stays empty.
pub open spec fn line_tail(line: Seq<Move>) -> Seq<Move> {
    if line.len() > 0 {
        line.drop_first()
    } else {
        line
    }
}

impl PVLine {
    /// The line without a move.
    pub fn new() -> (line: Self)
        ensures
            line@ == Seq::<Move>::empty(),
    {
        Self { moves: Vec::new() }
    }

    /// The line that follows the first move of `pv_line`.
    pub fn from_pv_line_tail(pv_line: &PVLine) -> (line: Self)
        ensures
            line@ == line_tail(pv_line@),
    {
        let mut moves: Vec<Move> = Vec::new();
        let mut i: usize = 1;
        while i < pv_line.moves.len()
            invariant
                1 <= i,
                i <= pv_line.moves.len() || pv_line.moves.len() == 0,
                pv_line.moves.len() > 0 ==> moves@ == pv_line@.subrange(1, i as int),
                pv_line.moves.len() == 0 ==> moves@ == Seq::<Move>::empty(),
            decreases pv_line.moves.len() - i,
        {
            moves.push(pv_line.moves[i]);
            i += 1;
        }
        assert(moves@ =~= line_tail(pv_line@));
        Self { moves }
    }

    /// Makes this line `mov` followed by the moves of `pv_line`, which is
    /// left empty.
    pub fn update(&mut self, mov: Move, pv_line: &mut PVLine)
        ensures
            final(self)@ == seq![mov] + old(pv_line)@,
            final(pv_line)@ == Seq::<Move>::empty(),
    {
        self.moves.clear();
        self.moves.push(mov);
        self.moves.append(&mut pv_line.moves);
    }
}

/// `moves` with the first `mov` among them and the move at the front
/// exchanged; `moves` itself when `mov` is not among them.
pub open spec fn swapped_to_front(moves: Seq<Move>, mov: Move) -> Seq<Move> {
    if moves.contains(mov) {
        moves.update(first_index(moves, mov), moves[0]).update(0, mov)
    } else {
        moves
    }
}

/// Brings `mov` to the front of `moves` when it is among them; the move
/// that stood at the front takes its place.
pub fn swap_move_to_front(moves: &mut Vec<Move>, mov: Move)
    ensures
        final(moves)@ == swapped_to_front(old(moves)@, mov),
{
    let mut i: usize = 0;
    let ghost mut found = false;
    while i < moves.len()
        invariant
            i <= moves.len(),
            moves.len() == old(moves).len(),
            !found ==> moves@ == old(moves)@ && forall|j: int| 0 <= j < i ==> moves@[j] != mov,
            found ==> moves@ == swapped_to_front(old(moves)@, mov) && old(moves)@.contains(mov)
                && moves@[0] == mov,
        decreases moves.len() - i,
    {
        if moves[i] == mov {
            proof {
                if !found {
                    lemma_first_index(moves@, mov, i as int);
                }
            }
            let front = moves[0];
            let other = moves[i];
            moves.set(0, other);
            moves.set(i, front);
            proof {
                assert(moves@ =~= swapped_to_front(old(moves)@, mov));
                found = true;
            }
        }
        i += 1;
    }
}

/// What a position is worth to the side to move: the score of the white
/// kings less that of the black kings; less the number of moves made when
/// that is above zero, and with that number added otherwise; and the whole
/// negated when black is to move.
pub open spec fn evaluation(position: Position) -> int {
    let base = SCORE_KING_COUNT[position.white_kings.len() as int]
        - SCORE_KING_COUNT[position.black_kings.len() as int];
    let score = if base > 0 {
        base - position.move_count
    } else {
        base + position.move_count
    };
    if position.white_to_move {
        score
    } else {
        -score
    }
}

/// Both sides have the same score for their kings.
pub open spec fn is_level(position: Position) -> bool {
    SCORE_KING_COUNT[position.white_kings.len() as int]
        == SCORE_KING_COUNT[position.black_kings.len() as int]
}

/// With the colours exchanged, a position that is level on kings is worth
/// the negated score to the side to move, and any other position the same
/// score.
pub proof fn lemma_evaluation_mirrored(position: Position)
    ensures
        evaluation(position.mirrored()) == if is_level(position) {
            -evaluation(position)
        } else {
            evaluation(position)
        },
{
}

/// A position that is level on kings is worth the number of moves made to
/// white and its negation to black, and with the colours exchanged it is
/// worth the negated score to the side to move.
pub proof fn lemma_evaluation_level(position: Position)
    requires
        is_level(position),
    ensures
        evaluation(position) == if position.white_to_move {
            position.move_count as int
        } else {
            -(position.move_count as int)
        },
        evaluation(position.mirrored()) == -evaluation(position),
{
}

/// Positions with as many white kings as black kings are level on kings.
pub proof fn lemma_equal_kings_are_level(position: Position)
    requires
        position.white_kings.len() == position.black_kings.len(),
    ensures
        is_level(position),
{
}

/// With the colours exchanged, a position that is level on kings, or is
/// worth nothing, is worth the negated score to the side to move.
pub proof fn lemma_evaluation_antisymmetry(position: Position)
    requires
        is_level(position) || evaluation(position) == 0,
    ensures
        evaluation(position.mirrored()) == -evaluation(position),
{
}

/// Scores a position for the side to move without looking ahead.
pub fn evaluate(game_state: &GameState) -> (score: i32)
    requires
        game_state.board.white_kings.wf(),
        game_state.board.black_kings.wf(),
        game_state.move_count <= i32::MAX,
    ensures
        score == evaluation(game_state@),
        -i32::MAX <= score,
{
    let white_king_score = SCORE_KING_COUNT[game_state.board.white_kings.len()];
    let black_king_score = SCORE_KING_COUNT[game_state.board.black_kings.len()];
    let move_count_score = game_state.move_count as i32;
    let mut score = white_king_score - black_king_score;
    // In a winning position high we are penalizing longer games,
    // in a losing position we reward longer games.
    if score > 0 {
        score -= move_count_score;
    } else {
        score += move_count_score;
    }
    if game_state.is_active_player_white {
        score
    } else {
        -score
    }
}

/// The moves in the order in which a node tries them: the legal moves, with
/// the first move of the line that was handed down brought to the front.
pub open spec fn ordered_moves(position: Position, line: Seq<Move>) -> Seq<Move> {
    if line.len() > 0 {
        swapped_to_front(position.legal_moves(), line[0])
    } else {
        position.legal_moves()
    }
}

/// The score of `position` for the side to move, found by a principal
/// variation search of `depth` plies inside the window from `alpha` to
/// `beta`, and the line of play that the search leaves behind. `line` is
/// the line that was handed down; its first move is tried first.
///
/// At depth zero the score is the static evaluation. A side without a
/// legal move scores `SCORE_MIN`. Otherwise the moves are tried in turn.
pub open spec fn pvs_result(position: Position, alpha: int, beta: int, depth: nat, line: Seq<Move>) -> (
    int,
    Seq<Move>,
)
    decreases depth, 1nat, 0nat,
{
    if depth == 0 {
        (evaluation(position), line)
    } else if position.legal_moves().len() == 0 {
        (SCORE_MIN as int, line)
    } else {
        pvs_moves(
            position,
            ordered_moves(position, line),
            0,
            alpha,
            beta,
            depth,
            line,
            line_tail(line),
        )
    }
}

/// The score and the line after the moves from place `i` on have been tried,
/// where `alpha` is the best score so far, `line` the best line so far, and
/// `next` the line handed down to the replies.
///
/// The first move is searched with the full window. Each later move is
/// first probed with an empty window above `alpha`, one ply less deep when it
/// is no jump and more than two plies are left, and searched again with the
/// full window when the probe falls strictly inside the window. A score
/// above `alpha` becomes the new `alpha`, and the move with the line of its
/// replies the new line. The moves end when `alpha` reaches `beta`.
pub open spec fn pvs_moves(
    position: Position,
    moves: Seq<Move>,
    i: nat,
    alpha: int,
    beta: int,
    depth: nat,
    line: Seq<Move>,
    next: Seq<Move>,
) -> (int, Seq<Move>)
    decreases depth, 0nat, moves.len() - i,
{
    if i >= moves.len() || depth == 0 {
        (alpha, line)
    } else {
        let mov = moves[i as int];
        let reply = position.after_move(mov);
        let probe = if i == 0 {
            pvs_result(reply, -beta, -alpha, (depth - 1) as nat, next)
        } else if depth > 2 && !mov.jumps() {
            pvs_result(reply, -alpha - 1, -alpha, (depth - 2) as nat, next)
        } else {
            pvs_result(reply, -alpha - 1, -alpha, (depth - 1) as nat, next)
        };
        let searched = if i > 0 && alpha < -probe.0 && -probe.0 < beta {
            pvs_result(reply, -beta, probe.0, (depth - 1) as nat, probe.1)
        } else {
            probe
        };
        let score = -searched.0;
        if score > alpha {
            if score >= beta {
                (score, seq![mov] + searched.1)
            } else {
                pvs_moves(
                    position,
                    moves,
                    i + 1,
                    score,
                    beta,
                    depth,
                    seq![mov] + searched.1,
                    Seq::empty(),
                )
            }
        } else if alpha >= beta {
            (alpha, line)
        } else {
            pvs_moves(position, moves, i + 1, alpha, beta, depth, line, searched.1)
        }
    }
}

/// Every move of the tried order is a legal move.
pub proof fn lemma_ordered_moves(position: Position, line: Seq<Move>, i: int)
    requires
        0 <= i < position.legal_moves().len(),
    ensures
        ordered_moves(position, line).len() == position.legal_moves().len(),
        position.legal_moves().contains(ordered_moves(position, line)[i]),
{
    let legal = position.legal_moves();
    if line.len() > 0 && legal.contains(line[0]) {
        lemma_first_index_found(legal, line[0]);
        let at = first_index(legal, line[0]);
        if i == 0 {
            assert(legal[at] == line[0]);
        } else if i == at {
            assert(legal[0] == ordered_moves(position, line)[i]);
        } else {
            assert(legal[i] == ordered_moves(position, line)[i]);
        }
    } else {
        assert(legal[i] == ordered_moves(position, line)[i]);
    }
}

/// Searches `depth` plies deep for the score of the side to move inside the
/// window from `alpha` to `beta`. `pv_line` hands down the line to try
/// first and takes up the best line found.
pub fn pvs(game_state: &GameState, alpha: i32, beta: i32, depth: u32, pv_line: &mut PVLine) -> (score:
    i32)
    requires
        game_state.wf(),
        alpha > i32::MIN,
        beta > i32::MIN,
        game_state.move_count + depth < i32::MAX,
    ensures
        (score as int, final(pv_line)@) == pvs_result(
            game_state@,
            alpha as int,
            beta as int,
            depth as nat,
            old(pv_line)@,
        ),
        score > i32::MIN,
    decreases depth,
{
    let mut new_pv_line = PVLine::from_pv_line_tail(pv_line);
    let mut a = alpha;
    let b = beta;
    let mut score: i32;
    if depth == 0 {
        return evaluate(game_state);
    }
    let mut moves = game_state.generate_moves();
    if moves.len() == 0 {
        return SCORE_MIN;
    }
    if pv_line.moves.len() > 0 {
        swap_move_to_front(&mut moves, pv_line.moves[0]);
    }
    let ghost position = game_state@;
    let ghost handed = pv_line@;
    let ghost goal = pvs_result(position, alpha as int, beta as int, depth as nat, handed);
    let mut i: usize = 0;
    while i < moves.len()
        invariant_except_break
            i > 0 ==> a < b,
            pvs_moves(
                position,
                moves@,
                i as nat,
                a as int,
                b as int,
                depth as nat,
                pv_line@,
                new_pv_line@,
            ) == goal,
        invariant
            game_state.wf(),
            position == game_state@,
            depth > 0,
            game_state.move_count + depth < i32::MAX,
            moves@ == ordered_moves(position, handed),
            a > i32::MIN,
            b == beta,
            b > i32::MIN,
            i <= moves.len(),
        ensures
            (a as int, pv_line@) == goal,
        decreases moves.len() - i,
    {
        let mov = moves[i];
        let mut game_state_move = game_state.clone();
        proof {
            lemma_ordered_moves(position, handed, 0);
            lemma_ordered_moves(position, handed, i as int);
            position.lemma_legal_move(mov);
        }
        game_state_move.make_move(mov);
        if i == 0 {
            score = -pvs(&game_state_move, -b, -a, depth - 1, &mut new_pv_line);
        } else {
            if depth > 2 && !mov.is_jump() {
                // late move reduction
                score = -pvs(&game_state_move, -a - 1, -a, depth - 2, &mut new_pv_line);
            } else {
                score = -pvs(&game_state_move, -a - 1, -a, depth - 1, &mut new_pv_line);
            }
            if a < score && score < b {
                score = -pvs(&game_state_move, -b, -score, depth - 1, &mut new_pv_line);
            }
        }
        if score > a {
            a = score;
            pv_line.update(mov, &mut new_pv_line);
        }
        if a >= b {
            break ;
        }
        i += 1;
    }
    a
}

/// A line is fit to play in `position` when it begins with a legal move.
pub open spec fn begins_legal(position: Position, line: Seq<Move>) -> bool {
    line.len() > 0 && position.legal_moves().contains(line[0])
}

/// The static evaluation never leaves the range of the king scores and the
/// move count.
pub proof fn lemma_evaluation_range(position: Position)
    requires
        position.white_kings.len() <= 7,
        position.black_kings.len() <= 7,
    ensures
        -100000 - position.move_count <= evaluation(position) <= 100000 + position.move_count,
        position.move_count >= 100000 ==> -position.move_count <= evaluation(position)
            <= position.move_count,
{
}

/// Trying moves leaves the line as it was or makes it begin with one of
/// the moves tried.
pub proof fn lemma_pvs_moves_line(
    position: Position,
    moves: Seq<Move>,
    i: nat,
    alpha: int,
    beta: int,
    depth: nat,
    line: Seq<Move>,
    next: Seq<Move>,
)
    requires
        forall|k: int| i <= k < moves.len() ==> position.legal_moves().contains(moves[k]),
    ensures
        pvs_moves(position, moves, i, alpha, beta, depth, line, next).1 == line || begins_legal(
            position,
            pvs_moves(position, moves, i, alpha, beta, depth, line, next).1,
        ),
    decreases moves.len() - i,
{
    if i < moves.len() && depth > 0 {
        let mov = moves[i as int];
        let reply = position.after_move(mov);
        let probe = if i == 0 {
            pvs_result(reply, -beta, -alpha, (depth - 1) as nat, next)
        } else if depth > 2 && !mov.jumps() {
            pvs_result(reply, -alpha - 1, -alpha, (depth - 2) as nat, next)
        } else {
            pvs_result(reply, -alpha - 1, -alpha, (depth - 1) as nat, next)
        };
        let searched = if i > 0 && alpha < -probe.0 && -probe.0 < beta {
            pvs_result(reply, -beta, probe.0, (depth - 1) as nat, probe.1)
        } else {
            probe
        };
        let score = -searched.0;
        let better = seq![mov] + searched.1;
        assert(better[0] == mov);
        if score > alpha {
            if score < beta {
                lemma_pvs_moves_line(
                    position,
                    moves,
                    i + 1,
                    score,
                    beta,
                    depth,
                    better,
                    Seq::empty(),
                );
            }
        } else if alpha < beta {
            lemma_pvs_moves_line(position, moves, i + 1, alpha, beta, depth, line, searched.1);
        }
    }
}

/// A search leaves the line as it was or makes it begin with a legal move.
pub proof fn lemma_pvs_line(position: Position, alpha: int, beta: int, depth: nat, line: Seq<Move>)
    ensures
        pvs_result(position, alpha, beta, depth, line).1 == line || begins_legal(
            position,
            pvs_result(position, alpha, beta, depth, line).1,
        ),
{
    if depth > 0 && position.legal_moves().len() > 0 {
        let moves = ordered_moves(position, line);
        lemma_ordered_moves(position, line, 0);
        assert forall|k: int| 0 <= k < moves.len() implies position.legal_moves().contains(
            moves[k],
        ) by {
            lemma_ordered_moves(position, line, k);
        }
        lemma_pvs_moves_line(position, moves, 0, alpha, beta, depth, line, line_tail(line));
    }
}

/// A search of one ply with the full window finds a line whenever there is
/// a legal move.
pub proof fn lemma_first_ply_line(position: Position, line: Seq<Move>)
    requires
        position.wf(),
        position.legal_moves().len() > 0,
        position.move_count + 1 < i32::MAX,
    ensures
        begins_legal(position, pvs_result(position, SCORE_MIN as int, SCORE_MAX as int, 1, line).1),
{
    let moves = ordered_moves(position, line);
    lemma_ordered_moves(position, line, 0);
    assert forall|k: int| 0 <= k < moves.len() implies position.legal_moves().contains(moves[k]) by {
        lemma_ordered_moves(position, line, k);
    }
    let mov = moves[0];
    let reply = position.after_move(mov);
    position.lemma_legal_move(mov);
    position.lemma_after_move_count(mov);
    lemma_evaluation_range(reply);
    let probe = pvs_result(reply, -(SCORE_MAX as int), -(SCORE_MIN as int), 0, line_tail(line));
    assert(probe.0 == evaluation(reply));
    let better = seq![mov] + probe.1;
    assert(better[0] == mov);
    lemma_pvs_moves_line(
        position,
        moves,
        1,
        -probe.0,
        SCORE_MAX as int,
        1,
        better,
        Seq::empty(),
    );
}

/// The line after searches of 1, 2, ... up to `depth` plies, each with the
/// full window and each handed the line of the one before.
pub open spec fn think_line(position: Position, depth: nat) -> Seq<Move>
    decreases depth,
{
    if depth == 0 {
        Seq::empty()
    } else {
        pvs_result(
            position,
            SCORE_MIN as int,
            SCORE_MAX as int,
            depth,
            think_line(position, (depth - 1) as nat),
        ).1
    }
}

/// Deepening by at least one ply finds a line that begins with a legal
/// move, whenever there is one.
pub proof fn lemma_think_line(position: Position, depth: nat)
    requires
        position.wf(),
        position.legal_moves().len() > 0,
        position.move_count + 1 < i32::MAX,
        depth >= 1,
    ensures
        begins_legal(position, think_line(position, depth)),
    decreases depth,
{
    if depth == 1 {
        lemma_first_ply_line(position, think_line(position, 0));
    } else {
        lemma_think_line(position, (depth - 1) as nat);
        lemma_pvs_line(
            position,
            SCORE_MIN as int,
            SCORE_MAX as int,
            depth,
            think_line(position, (depth - 1) as nat),
        );
    }
}

/// Two searches with the same position, window, depth and line give the
/// same score and leave the same line.
pub proof fn lemma_pvs_determined(
    game_state: GameState,
    alpha: i32,
    beta: i32,
    depth: u32,
    line: Seq<Move>,
    first_score: i32,
    first_line: Seq<Move>,
    second_score: i32,
    second_line: Seq<Move>,
)
    requires
        (first_score as int, first_line) == pvs_result(
            game_state@,
            alpha as int,
            beta as int,
            depth as nat,
            line,
        ),
        (second_score as int, second_line) == pvs_result(
            game_state@,
            alpha as int,
            beta as int,
            depth as nat,
            line,
        ),
    ensures
        first_score == second_score,
        first_line == second_line,
{
}

/// Two runs of `think` on the same position to the same depth pick the
/// same move, and the score and line of each depth on the way are the same.
pub proof fn lemma_think_determined(
    game_state: GameState,
    max_depth: u32,
    first: Move,
    second: Move,
)
    requires
        first == think_line(game_state@, max_depth as nat)[0],
        second == think_line(game_state@, max_depth as nat)[0],
    ensures
        first == second,
{
}

/// One pass of the deepening search: a search of `depth` plies with the
/// full window. `pv_line` hands down the line of the pass before and
/// takes up the line of this one.
pub fn deepen(game_state: &GameState, depth: u32, pv_line: &mut PVLine) -> (score: i32)
    requires
        game_state.wf(),
        game_state.move_count + depth < i32::MAX,
    ensures
        (score as int, final(pv_line)@) == pvs_result(
            game_state@,
            SCORE_MIN as int,
            SCORE_MAX as int,
            depth as nat,
            old(pv_line)@,
        ),
        depth >= 1 && old(pv_line)@ == think_line(game_state@, (depth - 1) as nat)
            ==> final(pv_line)@ == think_line(game_state@, depth as nat),
{
    pvs(game_state, SCORE_MIN, SCORE_MAX, depth, pv_line)
}

/// Picks a move for the side to move: searches 1, 2, ... up to `max_depth`
/// plies deep, each time trying the best line so far first, and returns
/// the first move of the last line.
pub fn think(game_state: &GameState, max_depth: u32) -> (mov: Move)
    requires
        game_state.wf(),
        game_state@.legal_moves().len() > 0,
        max_depth >= 1,
        game_state.move_count + max_depth < i32::MAX,
    ensures
        mov == think_line(game_state@, max_depth as nat)[0],
        game_state@.legal_moves().contains(mov),
{
    let mut pv_line = PVLine::new();
    let mut depth: u32 = 1;
    while depth <= max_depth
        invariant
            game_state.wf(),
            1 <= depth <= max_depth + 1,
            game_state.move_count + max_depth < i32::MAX,
            pv_line@ == think_line(game_state@, (depth - 1) as nat),
        decreases max_depth + 1 - depth,
    {
        deepen(game_state, depth, &mut pv_line);
        depth += 1;
    }
    proof {
        game_state.lemma_view_wf();
        lemma_think_line(game_state@, max_depth as nat);
    }
    pv_line.moves[0]
}

} // verus!
