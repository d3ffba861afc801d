use vstd::prelude::*;

verus! {

/// Index of a pocket on one side: 0 to 5 are pits, 6 is the store.
pub type PocketIndex = usize;

/// A pocket index together with the side it belongs to.
pub type PocketLocation = (PocketIndex, PlayerSide);

/// Number of pockets on one side, store included.
pub const SIDE_LEN: usize = 7;

/// Index of the store on each side.
pub const STORE: usize = 6;

/// One of the two sides of the board.
#[derive(Debug, Clone, Copy, PartialEq, Eq, Hash, Structural)]
pub enum PlayerSide {
    Player,
    Opponent,
}

pub open spec fn opposite(side: PlayerSide) -> PlayerSide {
    match side {
        PlayerSide::Player => PlayerSide::Opponent,
        PlayerSide::Opponent => PlayerSide::Player,
    }
}

fn opposite_player(player_turn: PlayerSide) -> (r: PlayerSide)
    ensures
        r == opposite(player_turn),
{
    match player_turn {
        PlayerSide::Player => PlayerSide::Opponent,
        PlayerSide::Opponent => PlayerSide::Player,
    }
}

// ---------------------------------------------------------------------------
// The board as a ring of fourteen cells: the player's pockets 0..=6 are cells
// 0..=6, the opponent's pockets 0..=6 are cells 7..=13.
// ---------------------------------------------------------------------------

/// Mathematical model of a board.
pub struct BoardModel {
    pub cells: Seq<int>,
    pub turn: PlayerSide,
}

/// Cell of the ring that a pocket location stands for.
pub open spec fn cell_of(loc: PocketLocation) -> int {
    match loc.1 {
        PlayerSide::Player => loc.0 as int,
        PlayerSide::Opponent => loc.0 as int + 7,
    }
}

/// Cell of a side's store.
pub open spec fn store_cell(side: PlayerSide) -> int {
    cell_of((STORE, side))
}

/// The cell after `c` when `turn` is sowing: the opponent's store is passed over.
pub open spec fn next_cell(c: int, turn: PlayerSide) -> int {
    let q = (c + 1) % 14;
    if q == store_cell(opposite(turn)) {
        (q + 1) % 14
    } else {
        q
    }
}

pub open spec fn sum(s: Seq<int>) -> int
    decreases s.len(),
{
    if s.len() == 0 {
        0
    } else {
        sum(s.drop_last()) + s.last()
    }
}

/// Drops `n` stones one by one into the cells after `c`; returns the cells and
/// the cell of the last stone.
pub open spec fn drop_from(cells: Seq<int>, c: int, n: nat, turn: PlayerSide) -> (Seq<int>, int)
    decreases n,
{
    if n == 0 {
        (cells, c)
    } else {
        let q = next_cell(c, turn);
        drop_from(cells.update(q, cells[q] + 1), q, (n - 1) as nat, turn)
    }
}

/// Picks up every stone of cell `c` and sows them.
pub open spec fn sow(cells: Seq<int>, c: int, turn: PlayerSide) -> (Seq<int>, int) {
    drop_from(cells.update(c, 0), c, cells[c] as nat, turn)
}

/// Steps from cell `c` forward to the store of `turn`.
pub open spec fn to_store(c: int, turn: PlayerSide) -> int {
    (store_cell(turn) - c) % 14
}

/// Resolves a sowing chain from the landing cell `c` with at most `fuel` further
/// sows: it ends in the mover's store or in a cell that was empty before the last
/// stone; any other landing cell is picked up and sown again.
pub open spec fn resolve(cells: Seq<int>, c: int, turn: PlayerSide, fuel: nat) -> Option<
    (Seq<int>, int),
>
    decreases fuel,
{
    if c == store_cell(turn) || cells[c] == 1 {
        Some((cells, c))
    } else if fuel == 0 {
        None
    } else {
        let next = sow(cells, c, turn);
        resolve(next.0, next.1, turn, (fuel - 1) as nat)
    }
}

pub open spec fn chain_ends(cells: Seq<int>, c: int, turn: PlayerSide) -> bool {
    exists|f: nat| (#[trigger] resolve(cells, c, turn, f)) is Some
}

/// Cells and final landing cell of the chain that starts at `c`.
pub open spec fn chain_end(cells: Seq<int>, c: int, turn: PlayerSide) -> (Seq<int>, int) {
    resolve(cells, c, turn, choose|f: nat| (#[trigger] resolve(cells, c, turn, f)) is Some)->Some_0
}

/// The board after the side to move plays `pocket`: one sow, then its chain.
pub open spec fn after_move(b: BoardModel, pocket: PocketLocation) -> BoardModel {
    let first = sow(b.cells, cell_of(pocket), b.turn);
    let last = chain_end(first.0, first.1, b.turn);
    BoardModel {
        cells: last.0,
        turn: if last.1 == store_cell(b.turn) {
            b.turn
        } else {
            opposite(b.turn)
        },
    }
}

/// The chain of the move from `pocket` comes to an end.
pub open spec fn move_ends(b: BoardModel, pocket: PocketLocation) -> bool {
    let first = sow(b.cells, cell_of(pocket), b.turn);
    chain_ends(first.0, first.1, b.turn)
}

/// Cell on which the last stone of the move from `pocket` lands.
pub open spec fn last_landing(b: BoardModel, pocket: PocketLocation) -> int {
    let first = sow(b.cells, cell_of(pocket), b.turn);
    chain_end(first.0, first.1, b.turn).1
}

impl BoardModel {
    /// Fourteen cells, none negative, with a total that fits an `i32`.
    pub open spec fn wf(self) -> bool {
        &&& self.cells.len() == 14
        &&& forall|i: int| 0 <= i < 14 ==> self.cells[i] >= 0
        &&& sum(self.cells) <= i32::MAX
    }
}

/// Seven pockets a side (six pits, then the store) and the side to move.
#[derive(Debug, Clone, Copy, PartialEq, Eq, Hash)]
pub struct Board {
    pub player_pockets: [i32; 7],
    pub opponent_pockets: [i32; 7],
    pub player_turn: PlayerSide,
}

impl View for Board {
    type V = BoardModel;

    open spec fn view(&self) -> BoardModel {
        BoardModel {
            cells: self.player_pockets@.map_values(|x: i32| x as int) + self.opponent_pockets@.map_values(
                |x: i32| x as int,
            ),
            turn: self.player_turn,
        }
    }
}

proof fn lemma_sum_update(s: Seq<int>, i: int, v: int)
    requires
        0 <= i < s.len(),
    ensures
        sum(s.update(i, v)) == sum(s) - s[i] + v,
    decreases s.len(),
{
    let t = s.update(i, v);
    if i == s.len() - 1 {
        assert(t.drop_last() =~= s.drop_last());
    } else {
        assert(t.drop_last() =~= s.drop_last().update(i, v));
        lemma_sum_update(s.drop_last(), i, v);
    }
}

proof fn lemma_cell_le_sum(s: Seq<int>, i: int)
    requires
        0 <= i < s.len(),
        forall|j: int| 0 <= j < s.len() ==> s[j] >= 0,
    ensures
        s[i] <= sum(s),
        sum(s) >= 0,
    decreases s.len(),
{
    let d = s.drop_last();
    assert(forall|j: int| 0 <= j < d.len() ==> d[j] == s[j]);
    if d.len() > 0 {
        if i < s.len() - 1 {
            lemma_cell_le_sum(d, i);
        } else {
            lemma_cell_le_sum(d, 0);
        }
    } else {
        assert(sum(d) == 0);
    }
}

impl Board {
    pub fn new(player_pockets: [i32; 7], opponent_pockets: [i32; 7], player_turn: PlayerSide) -> (r:
        Self)
        ensures
            r.player_pockets == player_pockets,
            r.opponent_pockets == opponent_pockets,
            r.player_turn == player_turn,
    {
        Board { player_pockets, opponent_pockets, player_turn }
    }

    fn switch_player(&mut self)
        ensures
            final(self).player_pockets == old(self).player_pockets,
            final(self).opponent_pockets == old(self).opponent_pockets,
            final(self).player_turn == opposite(old(self).player_turn),
    {
        self.player_turn = opposite_player(self.player_turn)
    }

    /// Number of stones in a pocket.
    pub fn get_stones(self, pocket: PocketLocation) -> (r: i32)
        requires
            pocket.0 < SIDE_LEN,
        ensures
            r as int == self@.cells[cell_of(pocket)],
    {
        match pocket.1 {
            PlayerSide::Player => self.player_pockets[pocket.0],
            PlayerSide::Opponent => self.opponent_pockets[pocket.0],
        }
    }

    fn set_stones(&mut self, pocket: PocketLocation, stones: i32)
        requires
            pocket.0 < SIDE_LEN,
        ensures
            final(self)@.cells == old(self)@.cells.update(cell_of(pocket), stones as int),
            final(self).player_turn == old(self).player_turn,
    {
        match pocket.1 {
            PlayerSide::Player => self.player_pockets[pocket.0] = stones,
            PlayerSide::Opponent => self.opponent_pockets[pocket.0] = stones,
        }
        assert(self@.cells =~= old(self)@.cells.update(cell_of(pocket), stones as int));
    }
}


proof fn lemma_next_cell(c: int, turn: PlayerSide)
    requires
        0 <= c < 14,
    ensures
        0 <= next_cell(c, turn) < 14,
        next_cell(c, turn) != store_cell(opposite(turn)),
        c != store_cell(turn) && next_cell(c, turn) != store_cell(turn) ==> to_store(next_cell(c, turn), turn) + 1
            <= to_store(c, turn),
        0 <= to_store(c, turn) < 14,
{
}

/// What one stone-by-stone drop does to the ring: stones are added and never
/// removed, the opponent's store is never reached, and unless the mover's store
/// grew, the last stone lies `n` or more steps nearer to it.
proof fn lemma_drop_facts(cells: Seq<int>, c: int, n: nat, turn: PlayerSide)
    requires
        cells.len() == 14,
        0 <= c < 14,
        forall|i: int| 0 <= i < 14 ==> cells[i] >= 0,
    ensures
        drop_from(cells, c, n, turn).0.len() == 14,
        0 <= drop_from(cells, c, n, turn).1 < 14,
        forall|i: int| 0 <= i < 14 ==> #[trigger] drop_from(cells, c, n, turn).0[i] >= cells[i],
        sum(drop_from(cells, c, n, turn).0) == sum(cells) + n,
        drop_from(cells, c, n, turn).0[store_cell(opposite(turn))] == cells[store_cell(opposite(turn))],
        n >= 1 ==> drop_from(cells, c, n, turn).0[drop_from(cells, c, n, turn).1] >= 1,
        n >= 1 ==> drop_from(cells, c, n, turn).1 != store_cell(opposite(turn)),
        n == 0 ==> drop_from(cells, c, n, turn).1 == c,
        c != store_cell(turn) ==> (drop_from(cells, c, n, turn).0[store_cell(turn)] > cells[store_cell(turn)] || (
        drop_from(cells, c, n, turn).0[store_cell(turn)] == cells[store_cell(turn)] && drop_from(cells, c, n, turn).1
            != store_cell(turn) && to_store(drop_from(cells, c, n, turn).1, turn) + n <= to_store(c, turn))),
    decreases n,
{
    if n > 0 {
        let q = next_cell(c, turn);
        let c1 = cells.update(q, cells[q] + 1);
        lemma_next_cell(c, turn);
        lemma_sum_update(cells, q, cells[q] + 1);
        lemma_drop_facts(c1, q, (n - 1) as nat, turn);
    }
}

/// A chain has one outcome, whatever fuel is enough to reach it.
pub proof fn lemma_resolve_deterministic(
    cells: Seq<int>,
    c: int,
    turn: PlayerSide,
    f1: nat,
    f2: nat,
)
    requires
        resolve(cells, c, turn, f1) is Some,
        resolve(cells, c, turn, f2) is Some,
    ensures
        resolve(cells, c, turn, f1) == resolve(cells, c, turn, f2),
    decreases f1,
{
    if !(c == store_cell(turn) || cells[c] == 1) {
        let next = sow(cells, c, turn);
        lemma_resolve_deterministic(next.0, next.1, turn, (f1 - 1) as nat, (f2 - 1) as nat);
    }
}

/// The location after `loc` when `turn` is sowing.
fn next_location(loc: PocketLocation, turn: PlayerSide) -> (r: PocketLocation)
    requires
        loc.0 < SIDE_LEN,
    ensures
        r.0 < SIDE_LEN,
        cell_of(r) == next_cell(cell_of(loc), turn),
{
    if loc.0 < 5 {
        (loc.0 + 1, loc.1)
    } else if loc.0 == 5 && loc.1 == turn {
        (STORE, loc.1)
    } else {
        (0, opposite_player(loc.1))
    }
}

impl Board {
    /// Empties a pocket and returns what it held.
    fn pop_stones(&mut self, pocket: PocketLocation) -> (r: i32)
        requires
            pocket.0 < SIDE_LEN,
        ensures
            r as int == old(self)@.cells[cell_of(pocket)],
            final(self)@.cells == old(self)@.cells.update(cell_of(pocket), 0),
            final(self).player_turn == old(self).player_turn,
    {
        let stones = self.get_stones(pocket);
        self.set_stones(pocket, 0);
        stones
    }

    /// Drops one stone into a pocket.
    fn increment_stones(&mut self, pocket: PocketLocation)
        requires
            pocket.0 < SIDE_LEN,
            old(self)@.cells[cell_of(pocket)] < i32::MAX,
        ensures
            final(self)@.cells == old(self)@.cells.update(cell_of(pocket), old(self)@.cells[cell_of(pocket)] + 1),
            final(self).player_turn == old(self).player_turn,
    {
        let stones = self.get_stones(pocket);
        self.set_stones(pocket, stones + 1);
    }

    /// Sows the stones of `pocket` one by one into the following pockets,
    /// passing over the store of the side not to move; returns where the last
    /// stone fell.
    fn pickup_stones(&mut self, pocket: PocketLocation) -> (r: PocketLocation)
        requires
            old(self)@.wf(),
            pocket.0 < SIDE_LEN,
        ensures
            r.0 < SIDE_LEN,
            (final(self)@.cells, cell_of(r)) == sow(old(self)@.cells, cell_of(pocket), old(self).player_turn),
            final(self).player_turn == old(self).player_turn,
            final(self)@.wf(),
            sum(final(self)@.cells) == sum(old(self)@.cells),
    {
        let ghost start = self@.cells;
        let ghost turn = self.player_turn;
        let mut stones = self.pop_stones(pocket);
        let mut loc = pocket;
        proof {
            lemma_sum_update(start, cell_of(pocket), 0);
        }
        while stones > 0
            invariant
                0 <= stones,
                loc.0 < SIDE_LEN,
                self.player_turn == turn,
                self@.cells.len() == 14,
                forall|i: int| 0 <= i < 14 ==> self@.cells[i] >= 0,
                sum(self@.cells) + stones == sum(start),
                sum(start) <= i32::MAX,
                drop_from(self@.cells, cell_of(loc), stones as nat, turn) == sow(start, cell_of(pocket), turn),
            decreases stones,
        {
            loc = next_location(loc, self.player_turn);
            proof {
                lemma_cell_le_sum(self@.cells, cell_of(loc));
                lemma_sum_update(self@.cells, cell_of(loc), self@.cells[cell_of(loc)] + 1);
            }
            self.increment_stones(loc);
            stones -= 1;
        }
        loc
    }
}


/// Whether the game goes on, and how it ended.
#[derive(Debug, Clone, Copy, PartialEq, Eq, Hash, Structural)]
pub enum GameState {
    InProgress,
    Over(GameOver),
}

#[derive(Debug, Clone, Copy, PartialEq, Eq, Hash, Structural)]
pub enum GameOver {
    Win(Winner),
    TechnicalWin(PlayerSide),
}

#[derive(Debug, Clone, Copy, PartialEq, Eq, Hash, Structural)]
pub enum Winner {
    Player,
    Opponent,
    Tie,
}

/// Why a pocket cannot be played.
#[derive(Debug, Clone, Copy, PartialEq, Eq, Hash, Structural)]
pub enum InvalidPocketError {
    /// The pocket holds no stones.
    EmptyPocket,
    /// The pocket is on the side that is not to move.
    WrongPlayer,
    /// The pocket is a store.
    StorePocket,
    /// The pocket index is past the store.
    OutOfBoundsPocket,
}

/// The six pits that start at cell `from` are all empty.
pub open spec fn pits_empty(cells: Seq<int>, from: int) -> bool {
    forall|i: int| from <= i < from + 6 ==> cells[i] == 0
}

/// Stones still in the twelve pits.
pub open spec fn pit_stones(cells: Seq<int>) -> int {
    sum(cells.subrange(0, 6)) + sum(cells.subrange(7, 13))
}

/// The winner by store counts.
pub open spec fn store_winner(cells: Seq<int>) -> Winner {
    if cells[6] > cells[13] {
        Winner::Player
    } else if cells[6] < cells[13] {
        Winner::Opponent
    } else {
        Winner::Tie
    }
}

/// The side that can no longer be caught up with, if any.
pub open spec fn technical_winner(cells: Seq<int>) -> Option<PlayerSide> {
    if pit_stones(cells) + cells[6] < cells[13] {
        Some(PlayerSide::Opponent)
    } else if pit_stones(cells) + cells[13] < cells[6] {
        Some(PlayerSide::Player)
    } else {
        None
    }
}

/// Status of a position: over once one side's pits are empty, else over by a
/// technical win, else in progress.
pub open spec fn status_of(cells: Seq<int>) -> GameState {
    if pits_empty(cells, 0) || pits_empty(cells, 7) {
        GameState::Over(GameOver::Win(store_winner(cells)))
    } else {
        match technical_winner(cells) {
            Some(side) => GameState::Over(GameOver::TechnicalWin(side)),
            None => GameState::InProgress,
        }
    }
}

/// Mathematical model of a game.
pub struct GameModel {
    pub board: BoardModel,
    pub state: GameState,
}

/// What playing `pocket` does to a game: the first failed check, in order, or
/// the position after the move with its status recomputed.
pub open spec fn move_outcome(g: GameModel, pocket: PocketLocation) -> Result<GameModel, InvalidPocketError> {
    if pocket.1 != g.board.turn {
        Err(InvalidPocketError::WrongPlayer)
    } else if pocket.0 < SIDE_LEN && g.board.cells[cell_of(pocket)] == 0 {
        Err(InvalidPocketError::EmptyPocket)
    } else if pocket.0 == STORE {
        Err(InvalidPocketError::StorePocket)
    } else if pocket.0 >= SIDE_LEN {
        Err(InvalidPocketError::OutOfBoundsPocket)
    } else {
        let b = after_move(g.board, pocket);
        Ok(GameModel { board: b, state: status_of(b.cells) })
    }
}

/// A board with the status computed after the last move.
#[derive(Debug, Clone, Copy, PartialEq, Eq, Hash)]
pub struct Game {
    pub board: Board,
    pub game_state: GameState,
}

impl View for Game {
    type V = GameModel;

    open spec fn view(&self) -> GameModel {
        GameModel { board: self.board@, state: self.game_state }
    }
}

impl Board {
    proof fn lemma_view_len(&self)
        ensures
            self@.cells.len() == 14,
    {
    }

    /// Whether any of the six pits of `side` holds stones.
    fn has_pit_stones(&self, side: PlayerSide) -> (r: bool)
        ensures
            r == !pits_empty(self@.cells, cell_of((0, side))),
    {
        let mut i: usize = 0;
        while i < 6
            invariant
                i <= 6,
                forall|j: int| cell_of((0, side)) <= j < cell_of((0, side)) + i ==> self@.cells[j] == 0,
            decreases 6 - i,
        {
            if self.get_stones((i, side)) != 0 {
                return true;
            }
            i += 1;
        }
        false
    }

    /// Stones in the six pits of `side`.
    fn pit_sum(&self, side: PlayerSide) -> (r: i64)
        ensures
            r == sum(self@.cells.subrange(cell_of((0, side)), cell_of((0, side)) + 6)),
            -0x8000_0000 * 6 <= r <= 0x7fff_ffff * 6,
    {
        proof {
            self.lemma_view_len();
        }
        let ghost base = cell_of((0, side));
        let mut acc: i64 = 0;
        let mut i: usize = 0;
        while i < 6
            invariant
                i <= 6,
                acc == sum(self@.cells.subrange(base, base + i)),
                self@.cells.len() == 14,
                base == cell_of((0, side)),
                -0x8000_0000 * i <= acc <= 0x7fff_ffff * i,
            decreases 6 - i,
        {
            let v = self.get_stones((i, side));
            assert(self@.cells.subrange(base, base + i + 1).drop_last() =~= self@.cells.subrange(base, base + i));
            acc = acc + v as i64;
            i += 1;
        }
        acc
    }
}

impl Game {
    pub fn new(board: Board) -> (r: Self)
        ensures
            r.board == board,
            r.game_state == GameState::InProgress,
    {
        Game { board, game_state: GameState::InProgress }
    }

    fn check_for_game_end(&self) -> (r: Option<Winner>)
        ensures
            r == (if pits_empty(self.board@.cells, 0) || pits_empty(self.board@.cells, 7) {
                Some(store_winner(self.board@.cells))
            } else {
                None
            }),
    {
        if self.board.has_pit_stones(PlayerSide::Player) && self.board.has_pit_stones(PlayerSide::Opponent) {
            return None;
        }
        let player_score = self.board.get_stones((STORE, PlayerSide::Player));
        let opponent_score = self.board.get_stones((STORE, PlayerSide::Opponent));
        if player_score > opponent_score {
            Some(Winner::Player)
        } else if player_score < opponent_score {
            Some(Winner::Opponent)
        } else {
            Some(Winner::Tie)
        }
    }

    fn check_for_technical_win(&self) -> (r: Option<PlayerSide>)
        ensures
            r == technical_winner(self.board@.cells),
    {
        let remaining = self.board.pit_sum(PlayerSide::Player) + self.board.pit_sum(PlayerSide::Opponent);
        let player_score = self.board.get_stones((STORE, PlayerSide::Player)) as i64;
        let opponent_score = self.board.get_stones((STORE, PlayerSide::Opponent)) as i64;
        if remaining + player_score < opponent_score {
            Some(PlayerSide::Opponent)
        } else if remaining + opponent_score < player_score {
            Some(PlayerSide::Player)
        } else {
            None
        }
    }
}


impl Game {
    /// Plays the pocket `pocket`: its stones are sown, and while the last stone
    /// lands in an occupied pocket other than the mover's store, that pocket is
    /// sown in turn. The turn passes unless the last stone lands in the mover's
    /// store. The status is then recomputed.
    pub fn play_move(&mut self, pocket: PocketLocation) -> (r: Result<(), InvalidPocketError>)
        requires
            old(self).board@.wf(),
        ensures
            match move_outcome(old(self)@, pocket) {
                Ok(g) => r is Ok && final(self)@ == g,
                Err(e) => r == Err::<(), InvalidPocketError>(e) && *final(self) == *old(self),
            },
            r is Ok ==> move_ends(old(self).board@, pocket),
            final(self).board@.wf(),
            sum(final(self).board@.cells) == sum(old(self).board@.cells),
    {
        if pocket.1 != self.board.player_turn {
            return Err(InvalidPocketError::WrongPlayer);
        }
        if pocket.0 < SIDE_LEN && self.board.get_stones(pocket) == 0 {
            return Err(InvalidPocketError::EmptyPocket);
        }
        if pocket.0 == STORE {
            return Err(InvalidPocketError::StorePocket);
        }
        if pocket.0 >= SIDE_LEN {
            return Err(InvalidPocketError::OutOfBoundsPocket);
        }
        let ghost b0 = self.board@;
        let ghost total = sum(b0.cells);
        let turn = self.board.player_turn;
        let ghost own = store_cell(turn);
        proof {
            lemma_sum_update(b0.cells, cell_of(pocket), 0);
            lemma_drop_facts(b0.cells.update(cell_of(pocket), 0), cell_of(pocket), b0.cells[cell_of(pocket)] as nat, turn);
        }
        let mut loc = self.board.pickup_stones(pocket);
        let ghost first = (self.board@.cells, cell_of(loc));
        let ghost mut k: nat = 0;
        let mut turn_passes = false;
        loop
            invariant_except_break
                !turn_passes,
            invariant
                self.board@.wf(),
                self.board.player_turn == turn,
                loc.0 < SIDE_LEN,
                sum(self.board@.cells) == total,
                self.board@.cells[cell_of(loc)] >= 1,
                own == store_cell(turn),
                forall|f: nat|
                    resolve(first.0, first.1, turn, f + k) == #[trigger] resolve(
                        self.board@.cells,
                        cell_of(loc),
                        turn,
                        f,
                    ),
            ensures
                self.board@.wf(),
                sum(self.board@.cells) == total,
                resolve(first.0, first.1, turn, k) == Some((self.board@.cells, cell_of(loc))),
                self.board.player_turn == turn,
                turn_passes == (cell_of(loc) != own),
            decreases (total - self.board@.cells[own]) * 14 + to_store(cell_of(loc), turn),
        {
            assert(resolve(first.0, first.1, turn, 0 + k) == resolve(self.board@.cells, cell_of(loc), turn, 0));
            if loc.1 == turn && loc.0 == STORE {
                break;
            }
            if self.board.get_stones(loc) == 1 {
                turn_passes = true;
                break;
            }
            let ghost before = self.board@.cells;
            let ghost c = cell_of(loc);
            proof {
                lemma_next_cell(c, turn);
                lemma_sum_update(before, c, 0);
                lemma_drop_facts(before.update(c, 0), c, before[c] as nat, turn);
                assert forall|f: nat| resolve(before, c, turn, f + 1) == #[trigger] resolve(
                    sow(before, c, turn).0, sow(before, c, turn).1, turn, f) by {}
            }
            loc = self.board.pickup_stones(loc);
            proof {
                lemma_cell_le_sum(self.board@.cells, own);
                assert forall|f: nat| resolve(first.0, first.1, turn, f + (k + 1)) == #[trigger] resolve(
                    self.board@.cells, cell_of(loc), turn, f) by {
                    assert(resolve(first.0, first.1, turn, (f + 1) + k) == resolve(before, c, turn, f + 1));
                }
                k = k + 1;
            }
        }
        proof {
            let fc = choose|f: nat| (#[trigger] resolve(first.0, first.1, turn, f)) is Some;
            lemma_resolve_deterministic(first.0, first.1, turn, fc, k);
        }
        if turn_passes {
            self.board.switch_player();
        }
        let state = match self.check_for_game_end() {
            Some(winner) => GameState::Over(GameOver::Win(winner)),
            None => match self.check_for_technical_win() {
                Some(winner) => GameState::Over(GameOver::TechnicalWin(winner)),
                None => GameState::InProgress,
            },
        };
        self.game_state = state;
        Ok(())
    }
}


/// Along a chain the stones are only moved, the opponent's store is never
/// touched, the mover's store never shrinks, and a chain that comes to rest in
/// the mover's store from elsewhere has made it grow. A chain rests in the
/// mover's store or in a pocket that now holds a single stone.
proof fn lemma_resolve_facts(cells: Seq<int>, c: int, turn: PlayerSide, f: nat)
    requires
        cells.len() == 14,
        0 <= c < 14,
        c != store_cell(opposite(turn)),
        forall|i: int| 0 <= i < 14 ==> cells[i] >= 0,
        resolve(cells, c, turn, f) is Some,
    ensures
        ({
            let r = resolve(cells, c, turn, f)->Some_0;
            let own = store_cell(turn);
            let other = store_cell(opposite(turn));
            &&& r.0.len() == 14
            &&& 0 <= r.1 < 14
            &&& forall|i: int| 0 <= i < 14 ==> r.0[i] >= 0
            &&& sum(r.0) == sum(cells)
            &&& r.0[other] == cells[other]
            &&& r.0[own] >= cells[own]
            &&& r.1 == own && c != own ==> r.0[own] > cells[own]
            &&& r.1 == own || r.0[r.1] == 1
        }),
    decreases f,
{
    if !(c == store_cell(turn) || cells[c] == 1) {
        lemma_sum_update(cells, c, 0);
        lemma_drop_facts(cells.update(c, 0), c, cells[c] as nat, turn);
        let next = sow(cells, c, turn);
        lemma_resolve_facts(next.0, next.1, turn, (f - 1) as nat);
    }
}

/// What a legal move does, whichever way its chain runs: the board stays
/// well formed with the same number of stones, the store of the side not to
/// move is untouched, the mover's store never shrinks and grows on a free turn,
/// and the turn stays exactly when the last stone lands in the mover's store,
/// otherwise the last stone lies alone in its pocket.
pub proof fn lemma_move_facts(b: BoardModel, pocket: PocketLocation)
    requires
        b.wf(),
        pocket.1 == b.turn,
        pocket.0 < STORE,
        b.cells[cell_of(pocket)] > 0,
        move_ends(b, pocket),
    ensures
        ({
            let a = after_move(b, pocket);
            let own = store_cell(b.turn);
            let other = store_cell(opposite(b.turn));
            let landing = last_landing(b, pocket);
            &&& a.wf()
            &&& sum(a.cells) == sum(b.cells)
            &&& a.cells[other] == b.cells[other]
            &&& a.cells[own] >= b.cells[own]
            &&& a.turn == b.turn ==> a.cells[own] > b.cells[own]
            &&& (a.turn == b.turn <==> landing == own)
            &&& landing != own ==> a.turn == opposite(b.turn) && a.cells[landing] == 1
            &&& 0 <= landing < 14
        }),
{
    let turn = b.turn;
    let c0 = cell_of(pocket);
    lemma_sum_update(b.cells, c0, 0);
    lemma_drop_facts(b.cells.update(c0, 0), c0, b.cells[c0] as nat, turn);
    let first = sow(b.cells, c0, turn);
    let f = choose|f: nat| (#[trigger] resolve(first.0, first.1, turn, f)) is Some;
    lemma_resolve_facts(first.0, first.1, turn, f);
}

/// Every pocket holds at most all the stones.
pub proof fn lemma_cell_bound(b: BoardModel, i: int)
    requires
        b.wf(),
        0 <= i < 14,
    ensures
        0 <= b.cells[i] <= sum(b.cells),
{
    lemma_cell_le_sum(b.cells, i);
}


/// Every chain on a well-formed ring comes to rest: each further sow either
/// adds to the mover's store or ends nearer to it.
proof fn lemma_chain_terminates(cells: Seq<int>, c: int, turn: PlayerSide)
    requires
        cells.len() == 14,
        0 <= c < 14,
        c != store_cell(opposite(turn)),
        cells[c] >= 1,
        forall|i: int| 0 <= i < 14 ==> cells[i] >= 0,
    ensures
        chain_ends(cells, c, turn),
    decreases (sum(cells) - cells[store_cell(turn)]) * 14 + to_store(c, turn),
{
    if c == store_cell(turn) || cells[c] == 1 {
        assert(resolve(cells, c, turn, 0) is Some);
    } else {
        lemma_next_cell(c, turn);
        lemma_sum_update(cells, c, 0);
        lemma_drop_facts(cells.update(c, 0), c, cells[c] as nat, turn);
        let next = sow(cells, c, turn);
        lemma_cell_le_sum(next.0, store_cell(turn));
        lemma_chain_terminates(next.0, next.1, turn);
        let f = choose|f: nat| (#[trigger] resolve(next.0, next.1, turn, f)) is Some;
        assert(resolve(cells, c, turn, f + 1) is Some);
    }
}

/// A legal move on a well-formed board has a chain that comes to rest.
pub proof fn lemma_move_ends(b: BoardModel, pocket: PocketLocation)
    requires
        b.wf(),
        pocket.1 == b.turn,
        pocket.0 < STORE,
        b.cells[cell_of(pocket)] > 0,
    ensures
        move_ends(b, pocket),
{
    let c0 = cell_of(pocket);
    lemma_drop_facts(b.cells.update(c0, 0), c0, b.cells[c0] as nat, b.turn);
    let first = sow(b.cells, c0, b.turn);
    lemma_chain_terminates(first.0, first.1, b.turn);
}

/// The game after playing each of `pockets` in turn, each from the side then
/// to move; `None` once one of them is refused.
pub open spec fn replay(g: GameModel, pockets: Seq<usize>) -> Option<GameModel>
    decreases pockets.len(),
{
    if pockets.len() == 0 {
        Some(g)
    } else {
        match replay(g, pockets.drop_last()) {
            Some(h) => match move_outcome(h, (pockets.last(), h.board.turn)) {
                Ok(n) => Some(n),
                Err(_) => None,
            },
            None => None,
        }
    }
}

/// Sowing only moves stones: after any sequence of accepted moves the board is
/// well formed and holds as many stones as before.
pub proof fn lemma_stones_conserved(g: GameModel, pockets: Seq<usize>)
    requires
        g.board.wf(),
        replay(g, pockets) is Some,
    ensures
        replay(g, pockets)->Some_0.board.wf(),
        sum(replay(g, pockets)->Some_0.board.cells) == sum(g.board.cells),
    decreases pockets.len(),
{
    if pockets.len() > 0 {
        lemma_stones_conserved(g, pockets.drop_last());
        let h = replay(g, pockets.drop_last())->Some_0;
        let loc = (pockets.last(), h.board.turn);
        lemma_move_ends(h.board, loc);
        lemma_move_facts(h.board, loc);
    }
}

/// The opening position: four stones in each pit, empty stores, Player to move.
pub open spec fn opening() -> GameModel {
    GameModel {
        board: BoardModel {
            cells: seq![4, 4, 4, 4, 4, 4, 0, 4, 4, 4, 4, 4, 4, 0],
            turn: PlayerSide::Player,
        },
        state: GameState::InProgress,
    }
}

/// From the opening position, any sequence of accepted moves leaves 48 stones
/// on the board.
pub proof fn lemma_opening_keeps_48(pockets: Seq<usize>)
    requires
        replay(opening(), pockets) is Some,
    ensures
        sum(replay(opening(), pockets)->Some_0.board.cells) == 48,
{
    reveal_with_fuel(sum, 15);
    lemma_stones_conserved(opening(), pockets);
}

/// A move never puts a stone in the store of the side not to move: that store
/// keeps its count, and only the mover's store can grow.
pub proof fn lemma_other_store_untouched(g: GameModel, pocket: PocketLocation)
    requires
        g.board.wf(),
        move_outcome(g, pocket) is Ok,
    ensures
        move_outcome(g, pocket)->Ok_0.board.cells[store_cell(opposite(g.board.turn))] == g.board.cells[store_cell(
            opposite(g.board.turn),
        )],
        move_outcome(g, pocket)->Ok_0.board.cells[store_cell(g.board.turn)] >= g.board.cells[store_cell(g.board.turn)],
{
    lemma_move_ends(g.board, pocket);
    lemma_move_facts(g.board, pocket);
}

/// The mover keeps the turn exactly when the last stone of the chain lands in
/// the mover's store; otherwise the turn passes, and the chain only stops on a
/// pocket that was empty before its last stone (an occupied one is sown again).
pub proof fn lemma_turn_continuation(g: GameModel, pocket: PocketLocation)
    requires
        g.board.wf(),
        move_outcome(g, pocket) is Ok,
    ensures
        ({
            let n = move_outcome(g, pocket)->Ok_0;
            let landing = last_landing(g.board, pocket);
            &&& landing == store_cell(g.board.turn) ==> n.board.turn == g.board.turn
            &&& landing != store_cell(g.board.turn) ==> n.board.turn == opposite(g.board.turn)
                && n.board.cells[landing] == 1
        }),
{
    lemma_move_ends(g.board, pocket);
    lemma_move_facts(g.board, pocket);
}

impl Default for Board {
    /// The opening layout: four stones in each pit, empty stores, Player to move.
    fn default() -> (r: Self)
        ensures
            r@ == opening().board,
    {
        let r = Board { player_pockets: [4, 4, 4, 4, 4, 4, 0], opponent_pockets: [4, 4, 4, 4, 4, 4, 0], player_turn: PlayerSide::Player };
        assert(r@.cells =~= opening().board.cells);
        r
    }
}

impl Default for Game {
    /// The opening position, in progress.
    fn default() -> (r: Self)
        ensures
            r@ == opening(),
    {
        Game { board: Board::default(), game_state: GameState::InProgress }
    }
}

} // verus!
