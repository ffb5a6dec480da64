//! The focus-navigation state machine over a schedule board.
//!
//! Each day is a row of games. At most `X_PAGE_SIZE` games of a row are
//! visible at once: the window of a row starts at its own `begin_index`, and
//! one column of the visible window (shared by all rows) holds the focus.
//!
//! Moving up or down changes only the focused row: the column, and every
//! row's window, stay as they were. A row with fewer than `X_PAGE_SIZE`
//! games never scrolls, and moving right stops at its last game; where the
//! column kept from a longer row lies past the last game of a shorter one,
//! the focus rests on an empty slot of that row, and no game is focused.
use vstd::prelude::*;

use crate::board::DaySchedule;
use crate::game::MlbGameClientInfo;

verus! {

/// The number of games to display at a time for each day.
pub const X_PAGE_SIZE: usize = 5;

/// An enumeration of directions in which focus can move.
#[derive(Clone, Copy, Debug, PartialEq, Eq, Structural)]
pub enum FocusDirection {
    Up,
    Down,
    Left,
    Right,
}

/// The abstract navigation state: the focused row and column, and for each
/// row its games and the first visible column.
pub struct NavView {
    pub day: int,
    pub column: int,
    pub rows: Seq<Seq<MlbGameClientInfo>>,
    pub begins: Seq<int>,
}

/// A window start is valid for a row of `len` games when the window is the
/// first page or lies entirely within the row.
pub open spec fn window_ok(begin: int, len: int) -> bool {
    begin == 0 || (0 < begin && begin + X_PAGE_SIZE <= len)
}


impl NavView {
    pub open spec fn row_len(self, d: int) -> int {
        self.rows[d].len() as int
    }

    pub open spec fn wf(self) -> bool {
        &&& self.begins.len() == self.rows.len()
        &&& forall|d: int|
            0 <= d < self.rows.len() ==> #[trigger] window_ok(self.begins[d], self.row_len(d))
        &&& if self.rows.len() == 0 {
            self.day == 0 && self.column == 0
        } else {
            0 <= self.day < self.rows.len() && 0 <= self.column < X_PAGE_SIZE
        }
    }

    /// The state in which every window starts at the first game and the
    /// focus is on the first column of the first row.
    pub open spec fn initial(rows: Seq<Seq<MlbGameClientInfo>>) -> NavView {
        NavView { day: 0, column: 0, rows, begins: Seq::new(rows.len(), |d: int| 0int) }
    }

    /// The state after one move of the focus in direction `dir`.
    pub open spec fn step(self, dir: FocusDirection) -> NavView {
        if self.rows.len() == 0 {
            self
        } else {
            let len = self.row_len(self.day);
            let begin = self.begins[self.day];
            match dir {
                FocusDirection::Left => if self.column > 0 {
                    NavView { column: self.column - 1, ..self }
                } else if begin > 0 {
                    NavView { begins: self.begins.update(self.day, begin - 1), ..self }
                } else {
                    self
                },
                FocusDirection::Right => if self.column + 1 < X_PAGE_SIZE && self.column + 1
                    < len {
                    NavView { column: self.column + 1, ..self }
                } else if begin + X_PAGE_SIZE < len {
                    NavView { begins: self.begins.update(self.day, begin + 1), ..self }
                } else {
                    self
                },
                FocusDirection::Up => if self.day > 0 {
                    NavView { day: self.day - 1, ..self }
                } else {
                    self
                },
                FocusDirection::Down => if self.day + 1 < self.rows.len() {
                    NavView { day: self.day + 1, ..self }
                } else {
                    self
                },
            }
        }
    }

    /// The state after `n` moves in the same direction.
    pub open spec fn steps(self, dir: FocusDirection, n: nat) -> NavView
        decreases n,
    {
        if n == 0 {
            self
        } else {
            self.step(dir).steps(dir, (n - 1) as nat)
        }
    }
}

/// A container for backing information for a single day.
pub struct DayRowInfo {
    pub games: Vec<MlbGameClientInfo>,
    pub begin_index: usize,
}

impl DayRowInfo {
    pub fn new(games: Vec<MlbGameClientInfo>) -> (r: Self)
        ensures
            r.games@ == games@,
            r.begin_index == 0,
    {
        DayRowInfo { games, begin_index: 0 }
    }
}

/// A container for MLB UI backing information: the board's rows and the
/// focus over them.
pub struct MlbUiInfo {
    days: Vec<DayRowInfo>,
    focused_day: usize,
    focused_index: usize,
}

impl View for MlbUiInfo {
    type V = NavView;

    closed spec fn view(&self) -> NavView {
        NavView {
            day: self.focused_day as int,
            column: self.focused_index as int,
            rows: Seq::new(self.days@.len(), |d: int| self.days@[d].games@),
            begins: Seq::new(self.days@.len(), |d: int| self.days@[d].begin_index as int),
        }
    }
}

impl MlbUiInfo {
    /// Builds the navigation state over an assembled board, one row per day
    /// in board order, in the initial state.
    pub fn init(board: Vec<DaySchedule>) -> (r: Self)
        ensures
            r@ == NavView::initial(Seq::new(board@.len(), |d: int| board@[d].games@)),
            r@.wf(),
    {
        let ghost rows = Seq::new(board@.len(), |d: int| board@[d].games@);
        let mut board = board;
        let ghost orig = board@;
        let mut days: Vec<DayRowInfo> = Vec::with_capacity(board.len());
        // take the days from the front, in order
        while board.len() > 0
            invariant
                days@.len() + board@.len() == orig.len(),
                board@ == orig.skip(days@.len() as int),
                forall|d: int|
                    0 <= d < days@.len() ==> (#[trigger] days@[d]).games@ == orig[d].games@
                        && days@[d].begin_index == 0,
            decreases board@.len(),
        {
            let day = board.remove(0);
            days.push(DayRowInfo::new(day.games));
            proof {
                assert(board@ =~= orig.skip(days@.len() as int));
            }
        }
        let r = MlbUiInfo { days, focused_day: 0, focused_index: 0 };
        assert(r@.rows =~= rows);
        assert(r@.begins =~= NavView::initial(rows).begins);
        r
    }

    pub open spec fn wf(&self) -> bool {
        self@.wf()
    }

    /// The number of rows.
    pub fn num_days(&self) -> (r: usize)
        ensures
            r == self@.rows.len(),
    {
        self.days.len()
    }

    /// The focused row.
    pub fn focused_day(&self) -> (r: usize)
        ensures
            r == self@.day,
    {
        self.focused_day
    }

    /// The focused column of the visible window.
    pub fn focused_index(&self) -> (r: usize)
        ensures
            r == self@.column,
    {
        self.focused_index
    }

    /// The first visible column of row `day`.
    pub fn begin_index(&self, day: usize) -> (r: usize)
        requires
            day < self@.rows.len(),
        ensures
            r == self@.begins[day as int],
    {
        self.days[day].begin_index
    }

    /// The games of row `day`.
    pub fn games(&self, day: usize) -> (r: &Vec<MlbGameClientInfo>)
        requires
            day < self@.rows.len(),
        ensures
            r@ == self@.rows[day as int],
    {
        &self.days[day].games
    }

    /// The focused game: none where the board is empty or the focus rests
    /// on an empty slot past the last game of its row.
    pub fn focused_game(&self) -> (r: Option<&MlbGameClientInfo>)
        requires
            self.wf(),
        ensures
            self@.rows.len() == 0 ==> r.is_none(),
            self@.rows.len() > 0 ==> (r.is_none() <==> self@.begins[self@.day] + self@.column
                >= self@.row_len(self@.day)),
            self@.rows.len() > 0 && r.is_some() ==> r == Some(
                &self@.rows[self@.day][self@.begins[self@.day] + self@.column],
            ),
    {
        if self.days.len() == 0 {
            return None;
        }
        let day = &self.days[self.focused_day];
        proof {
            assert(window_ok(self@.begins[self@.day], self@.row_len(self@.day)));
        }
        if self.focused_index >= day.games.len() - day.begin_index {
            return None;
        }
        Some(&day.games[day.begin_index + self.focused_index])
    }

    /// Moves the focus in the given direction; a move against a boundary
    /// leaves the state unchanged.
    pub fn move_focus(&mut self, direction: FocusDirection)
        requires
            old(self).wf(),
        ensures
            final(self)@ == old(self)@.step(direction),
            final(self).wf(),
    {
        proof {
            lemma_step_wf(self@, direction);
        }
        let ghost pre = self@;
        if self.days.len() == 0 {
            return;
        }
        let d = self.focused_day;
        let len = self.days[d].games.len();
        let begin = self.days[d].begin_index;
        proof {
            assert(window_ok(pre.begins[d as int], pre.row_len(d as int)));
        }
        match direction {
            FocusDirection::Left => {
                if self.focused_index > 0 {
                    self.focused_index = self.focused_index - 1;
                } else if begin > 0 {
                    self.set_begin(d, begin - 1);
                }
            },
            FocusDirection::Right => {
                if self.focused_index + 1 < X_PAGE_SIZE && self.focused_index + 1 < len {
                    self.focused_index = self.focused_index + 1;
                } else if begin + X_PAGE_SIZE < len {
                    self.set_begin(d, begin + 1);
                }
            },
            FocusDirection::Up => {
                if d > 0 {
                    self.focused_day = d - 1;
                }
            },
            FocusDirection::Down => {
                if d + 1 < self.days.len() {
                    self.focused_day = d + 1;
                }
            },
        }
        proof {
            assert(self@.rows =~= pre.step(direction).rows);
            assert(self@.begins =~= pre.step(direction).begins);
        }
    }

    fn set_begin(&mut self, d: usize, begin: usize)
        requires
            d < old(self).days@.len(),
        ensures
            final(self).focused_day == old(self).focused_day,
            final(self).focused_index == old(self).focused_index,
            final(self).days@ == old(self).days@.update(
                d as int,
                DayRowInfo { begin_index: begin, ..old(self).days@[d as int] },
            ),
    {
        let mut row = self.days.remove(d);
        row.begin_index = begin;
        self.days.insert(d, row);
        proof {
            assert(self.days@ =~= old(self).days@.update(
                d as int,
                DayRowInfo { begin_index: begin, ..old(self).days@[d as int] },
            ));
        }
    }
}

/// Every move keeps the navigation state well formed.
pub proof fn lemma_step_wf(s: NavView, dir: FocusDirection)
    requires
        s.wf(),
    ensures
        s.step(dir).wf(),
{
    if s.rows.len() > 0 {
        let t = s.step(dir);
        assert(window_ok(s.begins[s.day], s.row_len(s.day)));
        assert forall|d: int| 0 <= d < t.rows.len() implies #[trigger] window_ok(
            t.begins[d],
            t.row_len(d),
        ) by {
            assert(window_ok(s.begins[d], s.row_len(d)));
        }
    }
}

/// The last column that the focus can rest on in a row of `len` games.
pub open spec fn last_column(len: int) -> int {
    if len == 0 {
        0
    } else if len < X_PAGE_SIZE {
        len - 1
    } else {
        X_PAGE_SIZE - 1
    }
}

/// The last window start of a row of `len` games.
pub open spec fn last_begin(len: int) -> int {
    if len <= X_PAGE_SIZE {
        0
    } else {
        len - X_PAGE_SIZE
    }
}

/// From the initial state, moving left or up changes nothing.
pub proof fn lemma_initial_left_up_noop(rows: Seq<Seq<MlbGameClientInfo>>)
    ensures
        NavView::initial(rows).wf(),
        NavView::initial(rows).step(FocusDirection::Left) == NavView::initial(rows),
        NavView::initial(rows).step(FocusDirection::Up) == NavView::initial(rows),
{
}

/// With the focus on the last row, on its last game and with its window at
/// its last position, moving right or down changes nothing.
pub proof fn lemma_last_right_down_noop(s: NavView)
    requires
        s.wf(),
        s.rows.len() > 0,
        s.day == s.rows.len() - 1,
        s.column == last_column(s.row_len(s.day)),
        s.begins[s.day] == last_begin(s.row_len(s.day)),
    ensures
        s.step(FocusDirection::Right) == s,
        s.step(FocusDirection::Down) == s,
{
}

/// In a row of more than `X_PAGE_SIZE` games, with the focus on the last
/// column of the window, `n` moves to the right scroll the window by `n`
/// games, but never past the last window start, and leave the focus on the
/// last column.
pub proof fn lemma_scroll_right(s: NavView, n: nat)
    requires
        s.wf(),
        s.rows.len() > 0,
        s.row_len(s.day) > X_PAGE_SIZE,
        s.column == X_PAGE_SIZE - 1,
    ensures
        s.steps(FocusDirection::Right, n).wf(),
        s.steps(FocusDirection::Right, n).day == s.day,
        s.steps(FocusDirection::Right, n).column == X_PAGE_SIZE - 1,
        s.steps(FocusDirection::Right, n).rows == s.rows,
        s.steps(FocusDirection::Right, n).begins == s.begins.update(
            s.day,
            if s.begins[s.day] + n <= last_begin(s.row_len(s.day)) {
                s.begins[s.day] + n
            } else {
                last_begin(s.row_len(s.day))
            },
        ),
    decreases n,
{
    assert(window_ok(s.begins[s.day], s.row_len(s.day)));
    if n == 0 {
        assert(s.begins.update(s.day, s.begins[s.day]) =~= s.begins);
    } else {
        let t = s.step(FocusDirection::Right);
        lemma_step_wf(s, FocusDirection::Right);
        lemma_scroll_right(t, (n - 1) as nat);
        if s.begins[s.day] + X_PAGE_SIZE < s.row_len(s.day) {
            assert(t.begins.update(s.day, t.begins[s.day] + (n - 1)) =~= s.begins.update(
                s.day,
                s.begins[s.day] + n,
            ));
            assert(t.begins.update(s.day, last_begin(s.row_len(s.day))) =~= s.begins.update(
                s.day,
                last_begin(s.row_len(s.day)),
            ));
        } else {
            assert(t == s);
            assert(s.begins[s.day] == last_begin(s.row_len(s.day)));
            assert(s.begins.update(s.day, s.begins[s.day]) =~= s.begins);
        }
    }
}

/// Moving down and then up again, from any row but the last, returns to
/// the same state: each row keeps its window and the column is kept.
pub proof fn lemma_down_up_restores(s: NavView)
    requires
        s.wf(),
        s.day + 1 < s.rows.len(),
    ensures
        s.step(FocusDirection::Down).step(FocusDirection::Up) == s,
        s.step(FocusDirection::Down).day == s.day + 1,
        s.step(FocusDirection::Down).column == s.column,
        s.step(FocusDirection::Down).begins == s.begins,
{
}

/// Moving up and then down again, from any row but the first, returns to
/// the same state.
pub proof fn lemma_up_down_restores(s: NavView)
    requires
        s.wf(),
        s.rows.len() > 0,
        s.day > 0,
    ensures
        s.step(FocusDirection::Up).step(FocusDirection::Down) == s,
        s.step(FocusDirection::Up).day == s.day - 1,
        s.step(FocusDirection::Up).column == s.column,
        s.step(FocusDirection::Up).begins == s.begins,
{
}

} // verus!
