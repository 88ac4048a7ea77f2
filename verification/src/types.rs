use vstd::prelude::*;

verus! {

/// The side to move or owning a piece.
#[derive(Debug, Clone, Copy, PartialEq, Eq, Structural)]
pub enum Color {
    White,
    Black,
}

/// The kind of a chess piece, independent of its color.
#[derive(Debug, Clone, Copy, PartialEq, Eq, Structural)]
pub enum PieceType {
    Pawn,
    Knight,
    Bishop,
    Rook,
    Queen,
    King,
}

/// A colored chess piece.
#[derive(Debug, Clone, Copy, PartialEq, Eq, Structural)]
pub enum Piece {
    WhitePawn,
    WhiteKnight,
    WhiteBishop,
    WhiteRook,
    WhiteQueen,
    WhiteKing,
    BlackPawn,
    BlackKnight,
    BlackBishop,
    BlackRook,
    BlackQueen,
    BlackKing,
}

/// The other color.
pub open spec fn opponent(c: Color) -> Color {
    match c {
        Color::White => Color::Black,
        Color::Black => Color::White,
    }
}

/// A move from `source` to `target` (squares 0..63), with an optional promotion piece.
#[derive(Debug, Clone, Copy, PartialEq, Eq, Structural)]
pub struct Move {
    pub source: u8,
    pub target: u8,
    pub promotion: Option<PieceType>,
}

impl Move {
    /// The null move a1-a1 without promotion.
    pub fn empty() -> (m: Self)
        ensures
            m == (Move { source: 0, target: 0, promotion: None }),
    {
        Self { source: 0, target: 0, promotion: None }
    }
}

impl Default for Move {
    fn default() -> (m: Self)
        ensures
            m == (Move { source: 0, target: 0, promotion: None }),
    {
        Move::empty()
    }
}

/// A fixed-capacity list of at most 256 moves; the first `count` slots are the list.
#[derive(Debug, Clone)]
pub struct MoveList {
    pub moves: [Move; 256],
    pub count: usize,
}

impl View for MoveList {
    type V = Seq<Move>;

    open spec fn view(&self) -> Seq<Move> {
        self.moves@.subrange(0, self.count as int)
    }
}

impl MoveList {
    /// The count stays within the capacity.
    pub open spec fn wf(&self) -> bool {
        self.count <= 256
    }

    /// An empty list.
    pub fn new() -> (l: Self)
        ensures
            l.wf(),
            l.count == 0,
            l@ == Seq::<Move>::empty(),
            forall|i: int| 0 <= i < 256 ==> #[trigger] l.moves[i] == (Move {
                source: 0,
                target: 0,
                promotion: None,
            }),
    {
        Self { moves: [Move { source: 0, target: 0, promotion: None }; 256], count: 0 }
    }

    /// Appends a move; the list must not be full.
    pub fn push(&mut self, m: Move)
        requires
            old(self).count < 256,
        ensures
            final(self).wf(),
            final(self).count == old(self).count + 1,
            final(self)@ == old(self)@.push(m),
            final(self).moves@ == old(self).moves@.update(old(self).count as int, m),
    {
        let ghost before = self@;
        self.moves[self.count] = m;
        self.count += 1;
        proof {
            assert(self@ =~= before.push(m));
        }
    }

    /// Empties the list (the slots keep their old moves).
    pub fn clear(&mut self)
        ensures
            final(self).count == 0,
            final(self).moves == old(self).moves,
            final(self)@ == Seq::<Move>::empty(),
    {
        self.count = 0;
        proof {
            assert(self@ =~= Seq::<Move>::empty());
        }
    }

    /// The move at position `i` of the list.
    pub fn get(&self, i: usize) -> (m: Move)
        requires
            self.wf(),
            i < self.count,
        ensures
            m == self@[i as int],
    {
        self.moves[i]
    }
}

impl Default for MoveList {
    fn default() -> (l: Self)
        ensures
            l.count == 0,
            l@ == Seq::<Move>::empty(),
    {
        Self::new()
    }
}

} // verus!
