//! The nine positions of the board, how they are joined, and which moves the
//! rules allow on a given placement of the pieces.

use vstd::prelude::*;
use vstd::set_lib::{lemma_int_range, lemma_len_subset, set_int_range};

use crate::state::PieceColor;

verus! {

/// The centre position. The rim positions are `0..CENTER_INDEX`.
pub const CENTER_INDEX: usize = 8;

/// The number of pieces on the board, four of each colour.
pub const PIECE_COUNT: usize = 8;

/// One position of the board.
#[derive(Debug, Clone, Copy, PartialEq, Eq, Structural)]
pub struct BoardNode {
    pub index: usize,
}

/// One playing piece: its side and the position it stands on.
#[derive(Debug, Clone, Copy, PartialEq, Eq, Structural)]
pub struct Piece {
    pub color: PieceColor,
    pub node_index: usize,
}

/// `index` names one of the nine positions.
pub open spec fn is_node(index: int) -> bool {
    0 <= index <= CENTER_INDEX
}

/// Two positions are joined by a line of the board: the centre with every
/// rim position, a rim position with the next and the previous on the ring.
pub open spec fn adjacent(a: int, b: int) -> bool {
    &&& is_node(a)
    &&& is_node(b)
    &&& a != b
    &&& (a == CENTER_INDEX || b == CENTER_INDEX || b == (a + 1) % 8 || b == (a + 7) % 8)
}

/// The neighbours of a position in the order in which they are tried: for the
/// centre the rim in ascending order, for a rim position the previous one on
/// the ring, the next one, then the centre.
pub open spec fn adjacent_nodes(index: usize) -> Seq<usize> {
    if index == CENTER_INDEX {
        Seq::new(8, |i: int| i as usize)
    } else {
        seq![((index + 7) % 8) as usize, ((index + 1) % 8) as usize, CENTER_INDEX]
    }
}

/// No piece of the placement stands on `node_index`.
pub open spec fn node_empty(node_index: usize, pieces: Seq<Piece>) -> bool {
    forall|i: int| 0 <= i < pieces.len() ==> (#[trigger] pieces[i]).node_index != node_index
}

/// Some piece of the other colour stands next to `piece`.
pub open spec fn adjacent_to_opponent(piece: Piece, pieces: Seq<Piece>) -> bool {
    exists|i: int|
        0 <= i < pieces.len() && (#[trigger] pieces[i]).color != piece.color && adjacent(
            piece.node_index as int,
            pieces[i].node_index as int,
        )
}

/// `piece` may move to `target`: the two are joined, nothing stands on
/// `target`, and a move into or out of the centre is open only to a piece that
/// stands next to an opponent before it moves.
pub open spec fn legal_move(piece: Piece, pieces: Seq<Piece>, target: usize) -> bool {
    &&& adjacent(piece.node_index as int, target as int)
    &&& node_empty(target, pieces)
    &&& (target == CENTER_INDEX || piece.node_index == CENTER_INDEX) ==> adjacent_to_opponent(
        piece,
        pieces,
    )
}

/// The positions `piece` may move to, in the order of `adjacent_nodes`.
pub open spec fn legal_destinations(piece: Piece, pieces: Seq<Piece>) -> Seq<usize> {
    adjacent_nodes(piece.node_index).filter(|target: usize| legal_move(piece, pieces, target))
}

/// `piece` has at least one legal move.
pub open spec fn can_move(piece: Piece, pieces: Seq<Piece>) -> bool {
    legal_destinations(piece, pieces).len() > 0
}

/// Some piece of `color` has at least one legal move.
pub open spec fn side_can_move(color: PieceColor, pieces: Seq<Piece>) -> bool {
    exists|i: int|
        0 <= i < pieces.len() && (#[trigger] pieces[i]).color == color && can_move(
            pieces[i],
            pieces,
        )
}

/// The placement at the start of a game: White on positions 0 to 3, Black on
/// 4 to 7, the centre free.
pub open spec fn initial_placement() -> Seq<Piece> {
    Seq::new(
        PIECE_COUNT as nat,
        |i: int|
            Piece {
                color: if i < 4 {
                    PieceColor::White
                } else {
                    PieceColor::Black
                },
                node_index: i as usize,
            },
    )
}

/// Every piece stands on one of the nine positions.
pub open spec fn on_board(pieces: Seq<Piece>) -> bool {
    forall|i: int| 0 <= i < pieces.len() ==> (#[trigger] pieces[i]).node_index <= CENTER_INDEX
}

/// The eight pieces stand on the board and no two share a position.
pub open spec fn valid_placement(pieces: Seq<Piece>) -> bool {
    &&& pieces.len() == PIECE_COUNT
    &&& on_board(pieces)
    &&& forall|i: int, j: int|
        0 <= i < j < pieces.len() ==> (#[trigger] pieces[i]).node_index != (
        #[trigger] pieces[j]).node_index
}

/// The enumeration `adjacent_nodes` lists exactly the positions joined to
/// `index`, each once.
pub proof fn lemma_adjacent_nodes_enumerates(index: usize)
    requires
        index <= CENTER_INDEX,
    ensures
        forall|other: usize| #[trigger]
            adjacent_nodes(index).contains(other) <==> adjacent(index as int, other as int),
        adjacent_nodes(index).no_duplicates(),
{
    let nodes = adjacent_nodes(index);
    assert forall|other: usize| #[trigger] nodes.contains(other) <==> adjacent(
        index as int,
        other as int,
    ) by {
        if adjacent(index as int, other as int) {
            if index == CENTER_INDEX {
                assert(nodes[other as int] == other);
            } else if other == CENTER_INDEX {
                assert(nodes[2] == other);
            } else if other == (index + 7) % 8 {
                assert(nodes[0] == other);
            } else {
                assert(nodes[1] == other);
            }
        }
    }
}

/// A rim position has three neighbours, the centre among them; the centre has
/// eight, which are all the rim positions.
pub proof fn lemma_adjacency_shape(index: usize)
    requires
        index <= CENTER_INDEX,
    ensures
        index < CENTER_INDEX ==> adjacent_nodes(index).len() == 3 && adjacent_nodes(
            index,
        ).contains(CENTER_INDEX),
        index == CENTER_INDEX ==> adjacent_nodes(index).len() == 8 && forall|rim: usize|
            #[trigger] adjacent_nodes(index).contains(rim) <==> rim < CENTER_INDEX,
        forall|k: int|
            0 <= k < adjacent_nodes(index).len() ==> #[trigger] adjacent_nodes(index)[k]
                <= CENTER_INDEX,
{
    lemma_adjacent_nodes_enumerates(index);
    if index < CENTER_INDEX {
        assert(adjacent_nodes(index)[2] == CENTER_INDEX);
    } else {
        assert forall|rim: usize| #[trigger]
            adjacent_nodes(index).contains(rim) <==> rim < CENTER_INDEX by {
            assert(adjacent(index as int, rim as int) <==> rim < CENTER_INDEX);
        }
    }
}

/// Being joined does not depend on the direction.
pub proof fn lemma_adjacent_symmetric(a: int, b: int)
    ensures
        adjacent(a, b) == adjacent(b, a),
{
}

/// A legal move into the centre, or out of it, is made by a piece that stands
/// next to an opponent before it moves; between two rim positions a move is
/// legal as soon as they are joined and the target is free.
pub proof fn lemma_center_moves_are_gated(piece: Piece, pieces: Seq<Piece>, target: usize)
    requires
        piece.node_index <= CENTER_INDEX,
    ensures
        legal_destinations(piece, pieces).contains(target) && (target == CENTER_INDEX
            || piece.node_index == CENTER_INDEX) ==> adjacent_to_opponent(piece, pieces),
        piece.node_index != CENTER_INDEX && target != CENTER_INDEX ==> (legal_destinations(
            piece,
            pieces,
        ).contains(target) <==> adjacent(piece.node_index as int, target as int) && node_empty(
            target,
            pieces,
        )),
{
    lemma_legal_destinations_members(piece, pieces);
}

/// The positions that the pieces stand on, in the order of the pieces.
pub open spec fn occupied_nodes(pieces: Seq<Piece>) -> Seq<int> {
    Seq::new(pieces.len(), |i: int| pieces[i].node_index as int)
}

/// With eight pieces on distinct positions, exactly one of the nine positions
/// is free.
pub proof fn lemma_exactly_one_node_empty(pieces: Seq<Piece>)
    requires
        valid_placement(pieces),
    ensures
        exists|free: usize|
            free <= CENTER_INDEX && #[trigger] node_empty(free, pieces) && forall|other: usize|
                other <= CENTER_INDEX && #[trigger] node_empty(other, pieces) ==> other == free,
{
    let nodes = occupied_nodes(pieces);
    let occupied = nodes.to_set();
    let all = set_int_range(0, 9);
    assert(nodes.no_duplicates()) by {
        assert forall|i: int, j: int|
            0 <= i < nodes.len() && 0 <= j < nodes.len() && i != j implies nodes[i]
            != nodes[j] by {
            if i < j {
                assert(pieces[i].node_index != pieces[j].node_index);
            } else {
                assert(pieces[j].node_index != pieces[i].node_index);
            }
        }
    }
    nodes.unique_seq_to_set();
    lemma_int_range(0, 9);
    assert forall|node: usize| node <= CENTER_INDEX implies (#[trigger] node_empty(node, pieces)
        <==> !occupied.contains(node as int)) by {
        if occupied.contains(node as int) {
            let i = choose|i: int| 0 <= i < nodes.len() && nodes[i] == node as int;
            assert(pieces[i].node_index == node);
        }
        if !node_empty(node, pieces) {
            let i = choose|i: int| 0 <= i < pieces.len() && (#[trigger] pieces[i]).node_index == node;
            assert(nodes[i] == node as int);
        }
    }
    assert(occupied.subset_of(all)) by {
        assert forall|node: int| occupied.contains(node) implies all.contains(node) by {
            let i = choose|i: int| 0 <= i < nodes.len() && nodes[i] == node;
            assert(pieces[i].node_index <= CENTER_INDEX);
        }
    }
    if all.subset_of(occupied) {
        lemma_len_subset(occupied, all);
        lemma_len_subset(all, occupied);
        assert(false);
    }
    let free_node = choose|node: int| all.contains(node) && !occupied.contains(node);
    let free = free_node as usize;
    assert(node_empty(free, pieces));
    assert forall|other: usize| other <= CENTER_INDEX && #[trigger] node_empty(
        other,
        pieces,
    ) implies other == free by {
        if other != free {
            let rest = all.remove(free as int).remove(other as int);
            assert(occupied.subset_of(rest));
            lemma_len_subset(occupied, rest);
            assert(false);
        }
    }
}

/// The neighbours of a position, in the order in which moves are tried.
pub fn get_adjacencies(index: usize) -> (adjacencies: Vec<usize>)
    requires
        index <= CENTER_INDEX,
    ensures
        adjacencies@ == adjacent_nodes(index),
        index < CENTER_INDEX ==> adjacencies@.len() == 3 && adjacencies@.contains(CENTER_INDEX),
        index == CENTER_INDEX ==> adjacencies@.len() == 8 && forall|rim: usize|
            #[trigger] adjacencies@.contains(rim) <==> rim < CENTER_INDEX,
{
    proof {
        lemma_adjacency_shape(index);
    }
    if index == CENTER_INDEX {
        let adjacencies: Vec<usize> = vec![0, 1, 2, 3, 4, 5, 6, 7];
        assert(adjacencies@ =~= adjacent_nodes(index));
        adjacencies
    } else {
        let prev: usize = (index + 7) % 8;
        let next: usize = (index + 1) % 8;
        let adjacencies: Vec<usize> = vec![prev, next, CENTER_INDEX];
        assert(adjacencies@ =~= adjacent_nodes(index));
        adjacencies
    }
}

/// The pieces at the start of a game.
pub fn initial_pieces() -> (pieces: Vec<Piece>)
    ensures
        pieces@ == initial_placement(),
        valid_placement(pieces@),
        node_empty(CENTER_INDEX, pieces@),
{
    let mut pieces: Vec<Piece> = Vec::new();
    let mut i: usize = 0;
    while i < PIECE_COUNT
        invariant
            i <= PIECE_COUNT,
            pieces@.len() == i,
            forall|k: int| 0 <= k < i ==> #[trigger] pieces@[k] == initial_placement()[k],
        decreases PIECE_COUNT - i,
    {
        let color = if i < 4 {
            PieceColor::White
        } else {
            PieceColor::Black
        };
        pieces.push(Piece { color, node_index: i });
        i += 1;
    }
    assert(pieces@ =~= initial_placement());
    pieces
}

/// Whether every piece stands on one of the nine positions.
pub fn is_on_board(pieces: &Vec<Piece>) -> (valid: bool)
    ensures
        valid == on_board(pieces@),
{
    let mut i: usize = 0;
    while i < pieces.len()
        invariant
            i <= pieces.len(),
            forall|k: int| 0 <= k < i ==> (#[trigger] pieces@[k]).node_index <= CENTER_INDEX,
        decreases pieces.len() - i,
    {
        if pieces[i].node_index > CENTER_INDEX {
            return false;
        }
        i += 1;
    }
    true
}

/// Whether the pieces are eight, all on the board, and no two on the same
/// position.
pub fn is_valid_placement(pieces: &Vec<Piece>) -> (valid: bool)
    ensures
        valid == valid_placement(pieces@),
{
    if pieces.len() != PIECE_COUNT || !is_on_board(pieces) {
        return false;
    }
    let mut j: usize = 0;
    while j < pieces.len()
        invariant
            j <= pieces.len(),
            pieces.len() == PIECE_COUNT,
            on_board(pieces@),
            forall|a: int, b: int|
                0 <= a < b < j ==> (#[trigger] pieces@[a]).node_index != (
                #[trigger] pieces@[b]).node_index,
        decreases pieces.len() - j,
    {
        let mut i: usize = 0;
        while i < j
            invariant
                i <= j < pieces.len(),
                forall|a: int|
                    0 <= a < i ==> (#[trigger] pieces@[a]).node_index != pieces@[j as int].node_index,
            decreases j - i,
        {
            if pieces[i].node_index == pieces[j].node_index {
                return false;
            }
            i += 1;
        }
        j += 1;
    }
    true
}

/// Whether no piece stands on `node_index`.
pub fn is_node_empty(node_index: usize, pieces: &Vec<Piece>) -> (empty: bool)
    ensures
        empty == node_empty(node_index, pieces@),
{
    let mut i: usize = 0;
    while i < pieces.len()
        invariant
            i <= pieces.len(),
            forall|k: int| 0 <= k < i ==> (#[trigger] pieces@[k]).node_index != node_index,
        decreases pieces.len() - i,
    {
        if pieces[i].node_index == node_index {
            return false;
        }
        i += 1;
    }
    true
}

/// Whether `node_index` occurs in `nodes`.
pub(crate) fn contains_node(nodes: &Vec<usize>, node_index: usize) -> (found: bool)
    ensures
        found == nodes@.contains(node_index),
{
    let mut i: usize = 0;
    while i < nodes.len()
        invariant
            i <= nodes.len(),
            forall|k: int| 0 <= k < i ==> nodes@[k] != node_index,
        decreases nodes.len() - i,
    {
        if nodes[i] == node_index {
            return true;
        }
        i += 1;
    }
    false
}

/// Whether a piece of the other colour stands next to `piece`.
pub fn is_adjacent_to_opponent(piece: &Piece, pieces: &Vec<Piece>) -> (threatened: bool)
    requires
        piece.node_index <= CENTER_INDEX,
    ensures
        threatened == adjacent_to_opponent(*piece, pieces@),
{
    let adjacencies = get_adjacencies(piece.node_index);
    proof {
        lemma_adjacent_nodes_enumerates(piece.node_index);
    }
    let mut i: usize = 0;
    while i < pieces.len()
        invariant
            i <= pieces.len(),
            piece.node_index <= CENTER_INDEX,
            adjacencies@ == adjacent_nodes(piece.node_index),
            forall|other: usize| #[trigger]
                adjacent_nodes(piece.node_index).contains(other) <==> adjacent(
                    piece.node_index as int,
                    other as int,
                ),
            forall|k: int|
                0 <= k < i ==> !((#[trigger] pieces@[k]).color != piece.color && adjacent(
                    piece.node_index as int,
                    pieces@[k].node_index as int,
                )),
        decreases pieces.len() - i,
    {
        let other = pieces[i];
        if other.color != piece.color && contains_node(&adjacencies, other.node_index) {
            return true;
        }
        i += 1;
    }
    false
}

/// Filtering one more position of an enumeration either appends it or leaves
/// the result as it was.
proof fn lemma_filter_step(nodes: Seq<usize>, pred: spec_fn(usize) -> bool, k: int)
    requires
        0 <= k < nodes.len(),
    ensures
        nodes.take(k + 1).filter(pred) == if pred(nodes[k]) {
            nodes.take(k).filter(pred).push(nodes[k])
        } else {
            nodes.take(k).filter(pred)
        },
{
    reveal(Seq::filter);
    assert(nodes.take(k + 1).drop_last() =~= nodes.take(k));
}

/// The positions `piece` may move to, in the order in which its neighbours
/// are listed.
pub fn get_valid_moves(piece: &Piece, pieces: &Vec<Piece>) -> (moves: Vec<usize>)
    requires
        piece.node_index <= CENTER_INDEX,
    ensures
        moves@ == legal_destinations(*piece, pieces@),
        forall|target: usize| #[trigger]
            moves@.contains(target) <==> legal_move(*piece, pieces@, target),
{
    let mut moves: Vec<usize> = Vec::new();
    let adjacencies = get_adjacencies(piece.node_index);
    let ghost pred = |target: usize| legal_move(*piece, pieces@, target);
    let mut i: usize = 0;
    assert(adjacencies@.take(0).filter(pred) =~= Seq::<usize>::empty()) by {
        reveal(Seq::filter);
    }
    while i < adjacencies.len()
        invariant
            i <= adjacencies.len(),
            piece.node_index <= CENTER_INDEX,
            adjacencies@ == adjacent_nodes(piece.node_index),
            pred == (|target: usize| legal_move(*piece, pieces@, target)),
            moves@ == adjacencies@.take(i as int).filter(pred),
        decreases adjacencies.len() - i,
    {
        let adj_index = adjacencies[i];
        proof {
            lemma_filter_step(adjacencies@, pred, i as int);
            lemma_adjacent_nodes_enumerates(piece.node_index);
            assert(adjacencies@.contains(adj_index));
        }
        if is_node_empty(adj_index, pieces) {
            if adj_index == CENTER_INDEX || piece.node_index == CENTER_INDEX {
                if is_adjacent_to_opponent(piece, pieces) {
                    moves.push(adj_index);
                }
            } else {
                moves.push(adj_index);
            }
        }
        i += 1;
    }
    proof {
        assert(adjacencies@.take(i as int) =~= adjacencies@);
        lemma_legal_destinations_members(*piece, pieces@);
    }
    moves
}

/// A position is among the legal destinations exactly when the move to it is
/// legal, so a piece can move exactly when some move of it is legal.
pub proof fn lemma_legal_destinations_members(piece: Piece, pieces: Seq<Piece>)
    requires
        piece.node_index <= CENTER_INDEX,
    ensures
        forall|target: usize| #[trigger]
            legal_destinations(piece, pieces).contains(target) <==> legal_move(
                piece,
                pieces,
                target,
            ),
        can_move(piece, pieces) <==> exists|target: usize| legal_move(piece, pieces, target),
{
    let nodes = adjacent_nodes(piece.node_index);
    let pred = |target: usize| legal_move(piece, pieces, target);
    let moves = legal_destinations(piece, pieces);
    lemma_adjacent_nodes_enumerates(piece.node_index);
    assert forall|target: usize| #[trigger] moves.contains(target) <==> legal_move(
        piece,
        pieces,
        target,
    ) by {
        if moves.contains(target) {
            let k = choose|k: int| 0 <= k < moves.len() && moves[k] == target;
            nodes.lemma_filter_pred(pred, k);
        }
        if legal_move(piece, pieces, target) {
            assert(nodes.contains(target));
            let k = choose|k: int| 0 <= k < nodes.len() && nodes[k] == target;
            nodes.lemma_filter_contains(pred, k);
        }
    }
    if can_move(piece, pieces) {
        assert(moves.contains(moves[0]));
        assert(legal_move(piece, pieces, moves[0]));
    }
    if exists|target: usize| legal_move(piece, pieces, target) {
        let target = choose|target: usize| legal_move(piece, pieces, target);
        assert(moves.contains(target));
    }
}

/// Whether `piece` has a legal move; stops at the first one found.
pub fn can_piece_move(piece: &Piece, pieces: &Vec<Piece>) -> (movable: bool)
    requires
        piece.node_index <= CENTER_INDEX,
    ensures
        movable == can_move(*piece, pieces@),
        movable == exists|target: usize| legal_move(*piece, pieces@, target),
{
    let adjacencies = get_adjacencies(piece.node_index);
    proof {
        lemma_adjacent_nodes_enumerates(piece.node_index);
        lemma_legal_destinations_members(*piece, pieces@);
    }
    let mut i: usize = 0;
    while i < adjacencies.len()
        invariant
            i <= adjacencies.len(),
            piece.node_index <= CENTER_INDEX,
            adjacencies@ == adjacent_nodes(piece.node_index),
            forall|target: usize| #[trigger]
                legal_destinations(*piece, pieces@).contains(target) <==> legal_move(
                    *piece,
                    pieces@,
                    target,
                ),
            forall|other: usize| #[trigger]
                adjacent_nodes(piece.node_index).contains(other) <==> adjacent(
                    piece.node_index as int,
                    other as int,
                ),
            forall|k: int| 0 <= k < i ==> !legal_move(*piece, pieces@, #[trigger] adjacencies@[k]),
        decreases adjacencies.len() - i,
    {
        let adj_index = adjacencies[i];
        assert(adjacencies@.contains(adj_index));
        if is_node_empty(adj_index, pieces) {
            if adj_index == CENTER_INDEX || piece.node_index == CENTER_INDEX {
                if is_adjacent_to_opponent(piece, pieces) {
                    assert(legal_destinations(*piece, pieces@).contains(adj_index));
                    return true;
                }
            } else {
                assert(legal_destinations(*piece, pieces@).contains(adj_index));
                return true;
            }
        }
        i += 1;
    }
    proof {
        let moves = legal_destinations(*piece, pieces@);
        if moves.len() > 0 {
            assert(moves.contains(moves[0]));
            assert(adjacencies@.contains(moves[0]));
        }
    }
    false
}

/// Whether any piece of `color` has a legal move: the test for a side that is
/// blocked and has thereby lost.
pub fn has_any_valid_moves(color: PieceColor, pieces: &Vec<Piece>) -> (any: bool)
    requires
        on_board(pieces@),
    ensures
        any == side_can_move(color, pieces@),
{
    let mut i: usize = 0;
    while i < pieces.len()
        invariant
            i <= pieces.len(),
            on_board(pieces@),
            forall|k: int|
                0 <= k < i ==> !((#[trigger] pieces@[k]).color == color && can_move(
                    pieces@[k],
                    pieces@,
                )),
        decreases pieces.len() - i,
    {
        let piece = pieces[i];
        if piece.color == color && can_piece_move(&piece, pieces) {
            return true;
        }
        i += 1;
    }
    false
}

} // verus!
