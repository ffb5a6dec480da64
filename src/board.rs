//! Planning the day requests and assembling the fetched days into a board.
//!
//! Days are numbered from 1970-01-01 (day 0). The board lists the days that
//! were fetched, most recent first: the order depends on the dates alone,
//! never on the order in which the fetches completed. A day whose fetch
//! failed does not appear; where two fetches name the same day, the later
//! successful one in the outcome list is kept.
use vstd::prelude::*;

use crate::game::MlbGameClientInfo;

verus! {

/// The schedule endpoint; the requested date is appended as YYYY-MM-DD.
pub const GAME_API: &'static str =
    "http://statsapi.mlb.com/api/v1/schedule?hydrate=game(content(editorial(recap))),decisions&sportId=1&date=";

/// Why one day of the schedule could not be retrieved.
#[derive(Clone, Copy, Debug, PartialEq, Eq, Structural)]
pub enum FetchError {
    /// The request for the day could not be formed.
    MalformedUrl,
    /// The service could not be reached, or did not answer in time.
    Transport,
    /// The answer was not a success, or its body could not be read.
    Body,
    /// The body did not hold a schedule.
    Schema,
}

/// The request for one day of the schedule.
pub struct DayRequest {
    pub date: i32,
    pub url: String,
}

/// The outcome of fetching one day: its games, in the order that the
/// service gave them, or why they could not be had.
pub struct DayOutcome {
    pub date: i32,
    pub games: Result<Vec<MlbGameClientInfo>, FetchError>,
}

/// The games of one day, keyed by the day's number (days since 1970-01-01).
pub struct DaySchedule {
    pub date: i32,
    pub games: Vec<MlbGameClientInfo>,
}

/// The ISO 8601 calendar date (YYYY-MM-DD) of a day number, or `None` where
/// the day is outside the supported calendar.
pub uninterp spec fn iso_date_of(day: int) -> Option<Seq<char>>;

/// Relies on chrono's `NaiveDate::from_epoch_days`, which gives `None` for a
/// day outside its calendar, and on its formatting with "%Y-%m-%d".
#[verifier::external_body]
fn iso_date_text(day: i32) -> (r: Option<String>)
    ensures
        r.is_some() == iso_date_of(day as int).is_some(),
        r.is_some() ==> r.unwrap()@ == iso_date_of(day as int).unwrap(),
{
    match chrono::NaiveDate::from_epoch_days(day) {
        Some(d) => Some(d.format("%Y-%m-%d").to_string()),
        None => None,
    }
}

/// Whether `r` is the request for `offset` days from day `today`: it is
/// formed exactly when that day is an `i32` with a calendar date, and then
/// names that day and asks the endpoint for its date.
pub open spec fn request_ok(r: Result<DayRequest, FetchError>, today: int, offset: int) -> bool {
    let day = today + offset;
    if i32::MIN <= day <= i32::MAX && iso_date_of(day).is_some() {
        r.is_ok() && r->Ok_0.date == day && r->Ok_0.url@ == GAME_API@ + iso_date_of(
            day,
        ).unwrap()
    } else {
        r == Err::<DayRequest, FetchError>(FetchError::MalformedUrl)
    }
}

/// The request URL for a date written as YYYY-MM-DD.
pub fn day_url(date_text: &str) -> (r: String)
    ensures
        r@ == GAME_API@ + date_text@,
{
    let mut url = String::from_str(GAME_API);
    url.append(date_text);
    url
}

/// The request for day `date`, given its calendar date as text (`None`
/// where it has none).
pub fn request_for(date: i32, date_text: Option<String>) -> (r: Result<DayRequest, FetchError>)
    ensures
        date_text.is_some() ==> r.is_ok() && r->Ok_0.date == date && r->Ok_0.url@ == GAME_API@
            + date_text.unwrap()@,
        date_text.is_none() ==> r == Err::<DayRequest, FetchError>(FetchError::MalformedUrl),
{
    match date_text {
        Some(text) => Ok(DayRequest { date, url: day_url(text.as_str()) }),
        None => Err(FetchError::MalformedUrl),
    }
}

/// The request for the day `offset` days from day `today`.
pub fn day_request(today: i32, offset: i64) -> (r: Result<DayRequest, FetchError>)
    ensures
        request_ok(r, today as int, offset as int),
{
    let day: i64 = match (today as i64).checked_add(offset) {
        Some(d) => d,
        None => {
            return Err(FetchError::MalformedUrl);
        },
    };
    if day < i32::MIN as i64 || day > i32::MAX as i64 {
        return Err(FetchError::MalformedUrl);
    }
    request_for(day as i32, iso_date_text(day as i32))
}

/// The requests for each configured day offset from day `today`, in the
/// order of the offsets.
pub fn plan_days(today: i32, offsets: &Vec<i64>) -> (r: Vec<Result<DayRequest, FetchError>>)
    ensures
        r@.len() == offsets@.len(),
        forall|i: int| 0 <= i < r@.len() ==> request_ok(#[trigger] r@[i], today as int, offsets@[i] as int),
{
    let mut r: Vec<Result<DayRequest, FetchError>> = Vec::with_capacity(offsets.len());
    let mut i: usize = 0;
    while i < offsets.len()
        invariant
            i <= offsets@.len(),
            r@.len() == i,
            forall|j: int| 0 <= j < i ==> request_ok(#[trigger] r@[j], today as int, offsets@[j] as int),
        decreases offsets@.len() - i,
    {
        r.push(day_request(today, offsets[i]));
        i = i + 1;
    }
    r
}

/// The games of the last successful outcome for day `date`, if any.
pub open spec fn latest_games(results: Seq<DayOutcome>, date: int) -> Option<Vec<MlbGameClientInfo>>
    decreases results.len(),
{
    if results.len() == 0 {
        None
    } else if results.last().date == date && results.last().games.is_ok() {
        Some(results.last().games->Ok_0)
    } else {
        latest_games(results.drop_last(), date)
    }
}

/// Days strictly descending by date: most recent first.
pub open spec fn most_recent_first(board: Seq<DaySchedule>) -> bool {
    forall|i: int, j: int| 0 <= i < j < board.len() ==> board[i].date > board[j].date
}

/// `board` is the board of `results`: its days are in order, most recent
/// first, and are exactly the days with a successful outcome, each with the
/// games of its last successful outcome.
pub open spec fn is_board_of(board: Seq<DaySchedule>, results: Seq<DayOutcome>) -> bool {
    &&& most_recent_first(board)
    &&& forall|i: int|
        0 <= i < board.len() ==> latest_games(results, board[i].date as int) == Some(
            #[trigger] board[i].games,
        )
    &&& forall|d: int| #[trigger]
        latest_games(results, d).is_some() ==> exists|i: int|
            0 <= i < board.len() && #[trigger] board[i].date == d
}

/// `post` is `pre` with day `date` put in its place, holding `games`: it
/// stays in order, has the day with those games, and keeps every other day
/// of `pre` and nothing else.
spec fn day_placed(post: Seq<DaySchedule>, pre: Seq<DaySchedule>, date: int, games: Vec<
    MlbGameClientInfo,
>) -> bool {
    &&& most_recent_first(post)
    &&& forall|i: int|
        0 <= i < post.len() && #[trigger] post[i].date == date ==> post[i].games == games
    &&& forall|i: int|
        0 <= i < post.len() && (#[trigger] post[i]).date != date ==> pre.contains(post[i])
    &&& exists|i: int| 0 <= i < post.len() && #[trigger] post[i].date == date
    &&& forall|j: int| 0 <= j < pre.len() && (#[trigger] pre[j]).date != date ==> post.contains(pre[j])
}

proof fn lemma_replace_day(pre: Seq<DaySchedule>, i: int, day: DaySchedule)
    requires
        most_recent_first(pre),
        0 <= i < pre.len(),
        pre[i].date == day.date,
    ensures
        day_placed(pre.update(i, day), pre, day.date as int, day.games),
{
    let post = pre.update(i, day);
    assert(post[i].date == day.date);
    assert forall|j: int| 0 <= j < pre.len() && (#[trigger] pre[j]).date != day.date implies exists|
        k: int,
    | 0 <= k < post.len() && post[k] == pre[j] by {
        assert(post[j] == pre[j]);
    }
    assert forall|k: int| 0 <= k < post.len() && (#[trigger] post[k]).date != day.date implies exists|
        j: int,
    | 0 <= j < pre.len() && pre[j] == post[k] by {
        assert(pre[k] == post[k]);
    }
}

proof fn lemma_insert_day(pre: Seq<DaySchedule>, i: int, day: DaySchedule)
    requires
        most_recent_first(pre),
        0 <= i <= pre.len(),
        forall|j: int| 0 <= j < i ==> (#[trigger] pre[j]).date > day.date,
        i < pre.len() ==> pre[i].date < day.date,
    ensures
        day_placed(pre.insert(i, day), pre, day.date as int, day.games),
{
    lemma_insert_members(pre, i, day);
    lemma_insert_keeps_order(pre, i, day);
}

proof fn lemma_insert_members(pre: Seq<DaySchedule>, i: int, day: DaySchedule)
    requires
        0 <= i <= pre.len(),
    ensures
        forall|k: int|
            0 <= k < pre.insert(i, day).len() && (#[trigger] pre.insert(i, day)[k]).date != day.date
                ==> pre.contains(pre.insert(i, day)[k]),
        pre.insert(i, day)[i] == day,
        forall|j: int| 0 <= j < pre.len() ==> pre.insert(i, day).contains(#[trigger] pre[j]),
{
    let post = pre.insert(i, day);
    pre.insert_ensures(i, day);
    assert forall|j: int| 0 <= j < pre.len() implies post.contains(#[trigger] pre[j]) by {
        if j < i {
            assert(post[j] == pre[j]);
        } else {
            assert(post[j + 1] == pre[j]);
        }
    }
    assert forall|k: int| 0 <= k < post.len() && k != i implies pre.contains(#[trigger] post[k]) by {
        if k < i {
            assert(pre[k] == post[k]);
        } else {
            assert(pre[k - 1] == post[k]);
        }
    }
}

proof fn lemma_insert_keeps_order(pre: Seq<DaySchedule>, i: int, day: DaySchedule)
    requires
        most_recent_first(pre),
        0 <= i <= pre.len(),
        forall|j: int| 0 <= j < i ==> (#[trigger] pre[j]).date > day.date,
        i < pre.len() ==> pre[i].date < day.date,
    ensures
        most_recent_first(pre.insert(i, day)),
{
    let post = pre.insert(i, day);
    pre.insert_ensures(i, day);
    assert forall|a: int, b: int| 0 <= a < b < post.len() implies post[a].date > post[b].date by {
        if b <= i {
            if b < i {
                assert(post[b] == pre[b]);
            }
            if a < i {
                assert(post[a] == pre[a]);
            }
        } else {
            assert(post[b] == pre[b - 1]);
            if a < i {
                assert(post[a] == pre[a]);
                assert(pre[a].date > day.date);
            } else if a > i {
                assert(post[a] == pre[a - 1]);
            }
            if b - 1 > i {
                assert(pre[i].date > pre[b - 1].date);
            }
        }
    }
}

/// Puts the games of day `date` on the board, in its place by date,
/// replacing the day's earlier games if it is there.
fn insert_day(board: &mut Vec<DaySchedule>, date: i32, games: Vec<MlbGameClientInfo>)
    requires
        most_recent_first(old(board)@),
    ensures
        day_placed(final(board)@, old(board)@, date as int, games),
{
    let ghost pre = board@;
    let mut i: usize = 0;
    while i < board.len() && board[i].date > date
        invariant
            i <= board@.len(),
            board@ == pre,
            forall|j: int| 0 <= j < i ==> (#[trigger] board@[j]).date > date,
        decreases board@.len() - i,
    {
        i = i + 1;
    }
    let day = DaySchedule { date, games };
    if i < board.len() && board[i].date == date {
        proof {
            lemma_replace_day(pre, i as int, day);
        }
        board.set(i, day);
    } else {
        proof {
            lemma_insert_day(pre, i as int, day);
        }
        board.insert(i, day);
    }
}

/// Assembles the board from the outcomes of the day fetches, whatever order
/// they completed in: the days whose fetch succeeded, most recent first.
/// An empty board is the answer where every fetch failed or none was made.
pub fn assemble_board(results: Vec<DayOutcome>) -> (r: Vec<DaySchedule>)
    ensures
        is_board_of(r@, results@),
{
    let ghost orig = results@;
    let mut results = results;
    let mut board: Vec<DaySchedule> = Vec::new();
    let ghost mut k: int = 0;
    while results.len() > 0
        invariant
            0 <= k <= orig.len(),
            results@ == orig.skip(k),
            is_board_of(board@, orig.take(k)),
        decreases results@.len(),
    {
        let outcome = results.remove(0);
        let ghost prev = board@;
        proof {
            assert(orig.take(k + 1).drop_last() =~= orig.take(k));
            assert(orig.take(k + 1).last() == orig[k]);
            assert(outcome == orig[k]);
        }
        match outcome.games {
            Ok(games) => {
                insert_day(&mut board, outcome.date, games);
                proof {
                    let pre = orig.take(k);
                    let post = orig.take(k + 1);
                    assert forall|i: int| 0 <= i < board@.len() implies latest_games(
                        post,
                        board@[i].date as int,
                    ) == Some(#[trigger] board@[i].games) by {
                        if board@[i].date != outcome.date {
                            let j = choose|j: int| 0 <= j < prev.len() && prev[j] == board@[i];
                            assert(latest_games(pre, prev[j].date as int) == Some(prev[j].games));
                        }
                    }
                    assert forall|d: int| #[trigger]
                        latest_games(post, d).is_some() implies exists|i: int|
                        0 <= i < board@.len() && #[trigger] board@[i].date == d by {
                        if d != outcome.date {
                            assert(latest_games(pre, d).is_some());
                            let j = choose|j: int| 0 <= j < prev.len() && #[trigger] prev[j].date == d;
                            assert(prev[j].date != outcome.date);
                        }
                    }
                }
            },
            Err(_) => {
                proof {
                    let pre = orig.take(k);
                    let post = orig.take(k + 1);
                    assert forall|d: int| latest_games(post, d) == latest_games(pre, d) by {}
                }
            },
        }
        proof {
            k = k + 1;
            assert(results@ =~= orig.skip(k));
        }
    }
    proof {
        assert(orig.take(k) =~= orig);
    }
    board
}

/// No two successful outcomes are for the same day.
pub open spec fn distinct_days(results: Seq<DayOutcome>) -> bool {
    forall|i: int, j: int|
        0 <= i < j < results.len() && results[i].games.is_ok() && results[j].games.is_ok()
            ==> results[i].date != results[j].date
}

/// Where no two successful outcomes share a day, the latest games of a day
/// are those of its one successful outcome.
proof fn lemma_latest_is_member(results: Seq<DayOutcome>, d: int, g: Vec<MlbGameClientInfo>)
    requires
        distinct_days(results),
    ensures
        latest_games(results, d) == Some(g) <==> exists|i: int|
            0 <= i < results.len() && (#[trigger] results[i]).date == d && results[i].games == Ok::<
                Vec<MlbGameClientInfo>,
                FetchError,
            >(g),
    decreases results.len(),
{
    if results.len() > 0 {
        let rest = results.drop_last();
        let n = results.len() - 1;
        assert forall|i: int, j: int|
            0 <= i < j < rest.len() && rest[i].games.is_ok() && rest[j].games.is_ok() implies rest[i].date
            != rest[j].date by {
            assert(rest[i] == results[i] && rest[j] == results[j]);
        }
        lemma_latest_is_member(rest, d, g);
        if exists|i: int|
            0 <= i < results.len() && (#[trigger] results[i]).date == d && results[i].games == Ok::<
                Vec<MlbGameClientInfo>,
                FetchError,
            >(g) {
            let i = choose|i: int|
                0 <= i < results.len() && (#[trigger] results[i]).date == d && results[i].games
                    == Ok::<Vec<MlbGameClientInfo>, FetchError>(g);
            if i < n {
                assert(rest[i] == results[i]);
            }
        }
        if exists|i: int|
            0 <= i < rest.len() && (#[trigger] rest[i]).date == d && rest[i].games == Ok::<
                Vec<MlbGameClientInfo>,
                FetchError,
            >(g) {
            let i = choose|i: int|
                0 <= i < rest.len() && (#[trigger] rest[i]).date == d && rest[i].games == Ok::<
                    Vec<MlbGameClientInfo>,
                    FetchError,
                >(g);
            assert(results[i] == rest[i]);
        }
    }
}

/// Each of `x` and `y` holds every day of the other.
spec fn same_days(x: Seq<DaySchedule>, y: Seq<DaySchedule>) -> bool {
    &&& forall|i: int| 0 <= i < x.len() ==> y.contains(#[trigger] x[i])
    &&& forall|j: int| 0 <= j < y.len() ==> x.contains(#[trigger] y[j])
}

proof fn lemma_first_days_equal(x: Seq<DaySchedule>, y: Seq<DaySchedule>)
    requires
        most_recent_first(x),
        most_recent_first(y),
        same_days(x, y),
        x.len() > 0 || y.len() > 0,
    ensures
        x.len() > 0 && y.len() > 0 && x[0] == y[0],
{
    if x.len() == 0 {
        assert(x.contains(y[0]));
    } else if y.len() == 0 {
        assert(y.contains(x[0]));
    } else {
        assert(y.contains(x[0]));
        assert(x.contains(y[0]));
        let k = choose|j: int| 0 <= j < y.len() && y[j] == x[0];
        let m = choose|i: int| 0 <= i < x.len() && x[i] == y[0];
        if k > 0 && m > 0 {
            assert(y[0].date > y[k].date);
            assert(x[0].date > x[m].date);
        }
    }
}

proof fn lemma_rest_same_days(x: Seq<DaySchedule>, y: Seq<DaySchedule>)
    requires
        most_recent_first(x),
        most_recent_first(y),
        same_days(x, y),
        x.len() > 0 && y.len() > 0 && x[0] == y[0],
    ensures
        same_days(x.drop_first(), y.drop_first()),
        most_recent_first(x.drop_first()),
        most_recent_first(y.drop_first()),
{
    let xs = x.drop_first();
    let ys = y.drop_first();
    assert forall|i: int| 0 <= i < xs.len() implies ys.contains(#[trigger] xs[i]) by {
        assert(xs[i] == x[i + 1]);
        assert(y.contains(x[i + 1]));
        let j = choose|j: int| 0 <= j < y.len() && y[j] == x[i + 1];
        assert(x[0].date > x[i + 1].date);
        assert(ys[j - 1] == y[j]);
    }
    assert forall|j: int| 0 <= j < ys.len() implies xs.contains(#[trigger] ys[j]) by {
        assert(ys[j] == y[j + 1]);
        assert(x.contains(y[j + 1]));
        let i = choose|i: int| 0 <= i < x.len() && x[i] == y[j + 1];
        assert(y[0].date > y[j + 1].date);
        assert(xs[i - 1] == x[i]);
    }
    assert forall|a: int, b: int| 0 <= a < b < xs.len() implies xs[a].date > xs[b].date by {
        assert(xs[a] == x[a + 1] && xs[b] == x[b + 1]);
    }
    assert forall|a: int, b: int| 0 <= a < b < ys.len() implies ys[a].date > ys[b].date by {
        assert(ys[a] == y[a + 1] && ys[b] == y[b + 1]);
    }
}

/// Two boards in order, each holding every day of the other, are the same.
proof fn lemma_ordered_boards_equal(x: Seq<DaySchedule>, y: Seq<DaySchedule>)
    requires
        most_recent_first(x),
        most_recent_first(y),
        same_days(x, y),
    ensures
        x == y,
    decreases x.len(),
{
    if x.len() > 0 || y.len() > 0 {
        let xs = x.drop_first();
        let ys = y.drop_first();
        lemma_first_days_equal(x, y);
        lemma_rest_same_days(x, y);
        lemma_ordered_boards_equal(xs, ys);
        assert forall|i: int| 0 <= i < x.len() implies x[i] == y[i] by {
            if i > 0 {
                assert(x[i] == xs[i - 1] && y[i] == ys[i - 1]);
            }
        }
    }
    assert(x =~= y);
}

/// An outcome that occurs at two places of `s` occurs twice in its multiset.
proof fn lemma_two_places_count(s: Seq<DayOutcome>, i: int, j: int)
    requires
        0 <= i < s.len(),
        0 <= j < s.len(),
        i != j,
        s[i] == s[j],
    ensures
        s.to_multiset().count(s[i]) >= 2,
{
    s.to_multiset_ensures();
    let r = s.remove(j);
    r.to_multiset_ensures();
    let k = if i < j { i } else { i - 1 };
    assert(r[k] == s[i]);
    assert(r.contains(s[i]));
    assert(r.to_multiset().count(s[i]) > 0);
    assert(r.to_multiset() =~= s.to_multiset().remove(s[j]));
}

/// An outcome that occurs twice in the multiset of `s` is at two places of `s`.
proof fn lemma_count_two_places(s: Seq<DayOutcome>, x: DayOutcome)
    requires
        s.to_multiset().count(x) >= 2,
    ensures
        exists|i: int, j: int| 0 <= i < j < s.len() && s[i] == x && s[j] == x,
{
    s.to_multiset_ensures();
    assert(s.contains(x));
    let p = choose|p: int| 0 <= p < s.len() && s[p] == x;
    let r = s.remove(p);
    r.to_multiset_ensures();
    assert(r.to_multiset() =~= s.to_multiset().remove(s[p]));
    assert(r.to_multiset().count(x) > 0);
    assert(r.contains(x));
    let k = choose|k: int| 0 <= k < r.len() && r[k] == x;
    if k < p {
        assert(s[k] == x);
    } else {
        assert(s[k + 1] == x);
    }
}

/// Lists that hold the same outcomes, in any order, agree on whether two
/// successes share a day.
proof fn lemma_distinct_days_permuted(a: Seq<DayOutcome>, b: Seq<DayOutcome>)
    requires
        a.to_multiset() == b.to_multiset(),
        distinct_days(a),
    ensures
        distinct_days(b),
{
    a.to_multiset_ensures();
    b.to_multiset_ensures();
    assert forall|i: int, j: int|
        0 <= i < j < b.len() && b[i].games.is_ok() && b[j].games.is_ok() implies b[i].date
        != b[j].date by {
        if b[i].date == b[j].date {
            if b[i] == b[j] {
                lemma_two_places_count(b, i, j);
                lemma_count_two_places(a, b[i]);
                let (p, q) = choose|p: int, q: int| 0 <= p < q < a.len() && a[p] == b[i] && a[q] == b[i];
                assert(a[p].date != a[q].date);
            } else {
                assert(b.contains(b[i]) && b.contains(b[j]));
                assert(b.to_multiset().count(b[i]) > 0 && b.to_multiset().count(b[j]) > 0);
                assert(a.contains(b[i]) && a.contains(b[j]));
                let p = choose|p: int| 0 <= p < a.len() && a[p] == b[i];
                let q = choose|q: int| 0 <= q < a.len() && a[q] == b[j];
                if p < q {
                    assert(a[p].date != a[q].date);
                } else {
                    assert(a[q].date != a[p].date);
                }
            }
        }
    }
}

/// The board does not depend on the order in which the day fetches
/// completed: outcome lists that hold the same outcomes in any order, with
/// no two successes for the same day, give the same board.
pub proof fn lemma_board_ignores_completion_order(
    a: Seq<DayOutcome>,
    b: Seq<DayOutcome>,
    board_a: Seq<DaySchedule>,
    board_b: Seq<DaySchedule>,
)
    requires
        a.to_multiset() == b.to_multiset(),
        distinct_days(a),
        is_board_of(board_a, a),
        is_board_of(board_b, b),
    ensures
        board_a == board_b,
{
    lemma_distinct_days_permuted(a, b);
    a.to_multiset_ensures();
    b.to_multiset_ensures();
    assert forall|d: int, g: Vec<MlbGameClientInfo>| latest_games(a, d) == Some(g) implies latest_games(
        b,
        d,
    ) == Some(g) by {
        lemma_latest_is_member(a, d, g);
        lemma_latest_is_member(b, d, g);
        let i = choose|i: int|
            0 <= i < a.len() && (#[trigger] a[i]).date == d && a[i].games == Ok::<
                Vec<MlbGameClientInfo>,
                FetchError,
            >(g);
        assert(a.contains(a[i]));
        assert(a.to_multiset().count(a[i]) > 0);
        assert(b.to_multiset().count(a[i]) > 0);
        assert(b.contains(a[i]));
    }
    assert forall|d: int, g: Vec<MlbGameClientInfo>| latest_games(b, d) == Some(g) implies latest_games(
        a,
        d,
    ) == Some(g) by {
        lemma_latest_is_member(a, d, g);
        lemma_latest_is_member(b, d, g);
        let i = choose|i: int|
            0 <= i < b.len() && (#[trigger] b[i]).date == d && b[i].games == Ok::<
                Vec<MlbGameClientInfo>,
                FetchError,
            >(g);
        assert(b.contains(b[i]));
        assert(b.to_multiset().count(b[i]) > 0);
        assert(a.to_multiset().count(b[i]) > 0);
        assert(a.contains(b[i]));
    }
    assert forall|i: int| 0 <= i < board_a.len() implies board_b.contains(#[trigger] board_a[i]) by {
        let d = board_a[i].date as int;
        assert(latest_games(a, d) == Some(board_a[i].games));
        assert(latest_games(b, d).is_some());
        let j = choose|j: int| 0 <= j < board_b.len() && #[trigger] board_b[j].date == d;
        assert(latest_games(b, board_b[j].date as int) == Some(board_b[j].games));
        assert(board_b[j] == board_a[i]);
    }
    assert forall|j: int| 0 <= j < board_b.len() implies board_a.contains(#[trigger] board_b[j]) by {
        let d = board_b[j].date as int;
        assert(latest_games(b, d) == Some(board_b[j].games));
        assert(latest_games(a, d).is_some());
        let i = choose|i: int| 0 <= i < board_a.len() && #[trigger] board_a[i].date == d;
        assert(latest_games(a, board_a[i].date as int) == Some(board_a[i].games));
        assert(board_a[i] == board_b[j]);
    }
    lemma_ordered_boards_equal(board_a, board_b);
}

/// Where the fetches are for distinct days and exactly one of them failed,
/// the board holds every other day: one day fewer than were fetched.
pub proof fn lemma_one_failure_drops_one_day(
    results: Seq<DayOutcome>,
    board: Seq<DaySchedule>,
    failed: int,
)
    requires
        forall|i: int, j: int|
            0 <= i < j < results.len() ==> results[i].date != results[j].date,
        0 <= failed < results.len(),
        results[failed].games.is_err(),
        forall|i: int| 0 <= i < results.len() && i != failed ==> (#[trigger] results[i]).games.is_ok(),
        is_board_of(board, results),
    ensures
        board.len() == results.len() - 1,
{
    let rest = results.remove(failed);
    let db = board.map_values(|x: DaySchedule| x.date as int);
    let dr = rest.map_values(|x: DayOutcome| x.date as int);
    assert forall|i: int| 0 <= i < rest.len() implies #[trigger] rest[i] == if i < failed {
        results[i]
    } else {
        results[i + 1]
    } by {}
    assert forall|i: int, j: int| 0 <= i < db.len() && 0 <= j < db.len() && i != j implies db[i]
        != db[j] by {
        if i < j {
            assert(board[i].date > board[j].date);
        } else {
            assert(board[j].date > board[i].date);
        }
    }
    assert forall|i: int, j: int| 0 <= i < dr.len() && 0 <= j < dr.len() && i != j implies dr[i]
        != dr[j] by {
        let ri = if i < failed { i } else { i + 1 };
        let rj = if j < failed { j } else { j + 1 };
        assert(rest[i] == results[ri] && rest[j] == results[rj]);
        if ri < rj {
            assert(results[ri].date != results[rj].date);
        } else {
            assert(results[rj].date != results[ri].date);
        }
    }
    db.unique_seq_to_set();
    dr.unique_seq_to_set();
    assert forall|d: int| db.to_set().contains(d) <==> dr.to_set().contains(d) by {
        if db.contains(d) {
            let i = choose|i: int| 0 <= i < db.len() && db[i] == d;
            assert(latest_games(results, d) == Some(board[i].games));
            lemma_latest_is_member(results, d, board[i].games);
            let k = choose|k: int|
                0 <= k < results.len() && (#[trigger] results[k]).date == d && results[k].games
                    == Ok::<Vec<MlbGameClientInfo>, FetchError>(board[i].games);
            assert(k != failed);
            if k < failed {
                assert(dr[k] == d);
            } else {
                assert(dr[k - 1] == d);
            }
        }
        if dr.contains(d) {
            let j = choose|j: int| 0 <= j < dr.len() && dr[j] == d;
            let k = if j < failed { j } else { j + 1 };
            assert(rest[j] == results[k]);
            assert(results[k].games.is_ok());
            lemma_latest_is_member(results, d, results[k].games->Ok_0);
            assert(latest_games(results, d).is_some());
            let i = choose|i: int| 0 <= i < board.len() && #[trigger] board[i].date == d;
            assert(db[i] == d);
        }
    }
    assert(db.to_set() =~= dr.to_set());
}

} // verus!
