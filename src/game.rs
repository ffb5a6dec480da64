//! Schedule entries as decoded from the schedule service, and the display
//! record derived from each.
use vstd::prelude::*;
use vstd::arithmetic::div_mod::lemma_add_mod_noop;

verus! {

/// A container for MLB game information over a range of dates.
pub struct MlbGameRange {
    pub dates: Vec<MlbGameDateInfo>,
}

/// A container for information about all MLB games on a specific date.
pub struct MlbGameDateInfo {
    pub games: Vec<MlbGameInfo>,
}

/// A container for information about an MLB game.
pub struct MlbGameInfo {
    /// The start of the game, as an RFC 3339 timestamp (a space may stand
    /// for the `T` between date and time).
    pub game_date: String,
    pub teams: MlbGameTeams,
    pub content: MlbGameContent,
}

/// A container for information about the two teams involved in an MLB game.
pub struct MlbGameTeams {
    pub away: MlbGameTeamInfo,
    pub home: MlbGameTeamInfo,
}

/// A container for information about an MLB team involved in a game.
pub struct MlbGameTeamInfo {
    pub team: MlbTeamInfo,
}

/// A container for static information about an MLB team.
pub struct MlbTeamInfo {
    pub name: String,
}

/// A container for information about media pertaining to an MLB game.
pub struct MlbGameContent {
    pub editorial: Option<MlbGameEditorial>,
}

/// The editorial content of an MLB game.
pub struct MlbGameEditorial {
    pub recap: MlbGameRecap,
}

/// The recap of an MLB game.
pub struct MlbGameRecap {
    pub mlb: Option<MlbGameArticle>,
}

/// A recap article: its headline and the cuts of its image.
pub struct MlbGameArticle {
    pub headline: String,
    pub image: MlbImageInfo,
}

/// A container for information about an image pertaining to an MLB game.
pub struct MlbImageInfo {
    pub cuts: Vec<MlbImageCuts>,
}

/// One cut of an image, by URL.
pub struct MlbImageCuts {
    pub src: String,
}

/// A container for information used by the client to display an MLB game entry.
pub struct MlbGameClientInfo {
    pub title: String,
    pub image: Option<Vec<u8>>,
    pub summary: String,
}

/// The seconds since the Unix epoch of a timestamp in chrono's reading of
/// RFC 3339 (which also takes a space in place of the `T` between date and
/// time), or `None` where the text is no such timestamp.
pub uninterp spec fn utc_seconds_of(s: Seq<char>) -> Option<i64>;

/// Relies on chrono's `FromStr` for `DateTime<Utc>` and `DateTime::timestamp`:
/// the parsed instant, in whole seconds since the Unix epoch.
#[verifier::external_body]
fn parse_utc_seconds(s: &str) -> (r: Option<i64>)
    ensures
        r == utc_seconds_of(s@),
{
    match s.parse::<chrono::DateTime<chrono::Utc>>() {
        Ok(t) => Some(t.timestamp()),
        Err(_) => None,
    }
}

/// The two decimal digits of `n`, zero-padded.
pub open spec fn two_digits(n: int) -> Seq<char> {
    seq![(('0' as u8) + n / 10) as char, (('0' as u8) + n % 10) as char]
}

/// A time of day on the 12-hour clock: "HH:MM AM" or "HH:MM PM", the hour
/// running from 01 to 12.
pub open spec fn clock_12h(hour: int, minute: int) -> Seq<char> {
    let h12 = if hour % 12 == 0 {
        12
    } else {
        hour % 12
    };
    two_digits(h12) + seq![':'] + two_digits(minute) + if hour >= 12 {
        seq![' ', 'P', 'M']
    } else {
        seq![' ', 'A', 'M']
    }
}

/// Relies on chrono's `NaiveTime::from_hms_opt`, which accepts any hour
/// below 24 and minute below 60, and on its formatting with "%I:%M %p":
/// the zero-padded hour of the 12-hour clock, the zero-padded minute, and
/// "AM" or "PM".
#[verifier::external_body]
fn clock_text(hour: u32, minute: u32) -> (r: String)
    requires
        hour < 24,
        minute < 60,
    ensures
        r@ == clock_12h(hour as int, minute as int),
{
    match chrono::NaiveTime::from_hms_opt(hour, minute, 0) {
        Some(t) => t.format("%I:%M %p").to_string(),
        None => String::new(),
    }
}

/// The hour and minute of the local time of day at `utc` seconds since the
/// epoch, in a time zone `offset` seconds east of UTC.
pub open spec fn local_clock(utc: int, offset: int) -> (int, int) {
    let of_day = (utc + offset) % 86400;
    (of_day / 3600, (of_day % 3600) / 60)
}

/// The fallback summary of a game: "Live" and the local kickoff time, or
/// "Live" alone where the game's start could not be read.
pub open spec fn kickoff_summary(kickoff_utc: Option<i64>, offset: int) -> Seq<char> {
    match kickoff_utc {
        Some(u) => seq!['L', 'i', 'v', 'e', ' '] + clock_12h(
            local_clock(u as int, offset).0,
            local_clock(u as int, offset).1,
        ),
        None => seq!['L', 'i', 'v', 'e'],
    }
}

/// The title of a game: "{away} at {home}".
pub open spec fn game_title(g: MlbGameInfo) -> Seq<char> {
    g.teams.away.team.name@ + seq![' ', 'a', 't', ' '] + g.teams.home.team.name@
}

/// The recap article of a game, if its content carries one.
pub open spec fn recap_article(g: MlbGameInfo) -> Option<MlbGameArticle> {
    match g.content.editorial {
        Some(e) => e.recap.mlb,
        None => None,
    }
}

/// The URL of the recap image of a game: the first cut of the recap
/// article's image, where there is one.
pub open spec fn recap_image_src(g: MlbGameInfo) -> Option<Seq<char>> {
    match recap_article(g) {
        Some(a) => if a.image.cuts@.len() > 0 {
            Some(a.image.cuts@[0].src@)
        } else {
            None
        },
        None => None,
    }
}

/// Whether the record of `g` shows its recap: there is a recap image to
/// fetch and it was fetched.
pub open spec fn shows_recap(g: MlbGameInfo, fetched: Option<Vec<u8>>) -> bool {
    recap_image_src(g).is_some() && fetched.is_some()
}

/// The record that a game is displayed with, given the outcome of fetching
/// its recap image and the game's start as read from its timestamp.
pub open spec fn client_info_ok(
    r: MlbGameClientInfo,
    g: MlbGameInfo,
    kickoff_utc: Option<i64>,
    offset: int,
    fetched: Option<Vec<u8>>,
) -> bool {
    &&& r.title@ == game_title(g)
    &&& if shows_recap(g, fetched) {
        r.image == fetched && r.summary@ == recap_article(g).unwrap().headline@
    } else {
        r.image.is_none() && r.summary@ == kickoff_summary(kickoff_utc, offset)
    }
}

/// The URL of the recap image to fetch for a game, if it has a recap.
pub fn recap_image_url(game: &MlbGameInfo) -> (r: Option<String>)
    ensures
        r.is_some() == recap_image_src(*game).is_some(),
        r.is_some() ==> r.unwrap()@ == recap_image_src(*game).unwrap(),
{
    match &game.content.editorial {
        Some(editorial) => match &editorial.recap.mlb {
            Some(article) => if article.image.cuts.len() > 0 {
                Some(article.image.cuts[0].src.clone())
            } else {
                None
            },
            None => None,
        },
        None => None,
    }
}

/// The local hour and minute at `utc` seconds since the epoch, in a time
/// zone `utc_offset` seconds east of UTC.
pub fn local_hour_minute(utc: i64, utc_offset: i32) -> (r: (u32, u32))
    ensures
        r.0 < 24,
        r.1 < 60,
        r.0 as int == local_clock(utc as int, utc_offset as int).0,
        r.1 as int == local_clock(utc as int, utc_offset as int).1,
{
    let a: i64 = utc.checked_rem_euclid(86400).unwrap();
    let b: i64 = (utc_offset as i64).checked_rem_euclid(86400).unwrap();
    let of_day: i64 = (a + b) % 86400;
    proof {
        lemma_add_mod_noop(utc as int, utc_offset as int, 86400);
    }
    ((of_day / 3600) as u32, ((of_day % 3600) / 60) as u32)
}

/// The fallback summary of a game whose start is `kickoff_utc`, shown in a
/// time zone `utc_offset` seconds east of UTC.
pub fn kickoff_text(kickoff_utc: Option<i64>, utc_offset: i32) -> (r: String)
    ensures
        r@ == kickoff_summary(kickoff_utc, utc_offset as int),
{
    match kickoff_utc {
        Some(u) => {
            let (hour, minute) = local_hour_minute(u, utc_offset);
            let clock = clock_text(hour, minute);
            let mut text = String::from_str("Live ");
            text.append(clock.as_str());
            proof {
                reveal_strlit("Live ");
            }
            text
        },
        None => {
            proof {
                reveal_strlit("Live");
            }
            String::from_str("Live")
        },
    }
}

/// The title of a game, "{away} at {home}".
pub fn title_of(game: &MlbGameInfo) -> (r: String)
    ensures
        r@ == game_title(*game),
        r@.len() >= 4,
{
    let mut title = game.teams.away.team.name.clone();
    title.append(" at ");
    title.append(game.teams.home.team.name.as_str());
    proof {
        reveal_strlit(" at ");
    }
    title
}

/// Builds the display record of a game from the outcome of fetching its
/// recap image (`None` where it failed or was not attempted) and its start
/// as read from its timestamp.
///
/// The record always has a title. It shows the recap headline and image
/// only where the game has a recap image and that image was fetched; in
/// every other case it has no image and the kickoff summary.
pub fn client_info_from(
    game: &MlbGameInfo,
    kickoff_utc: Option<i64>,
    utc_offset: i32,
    fetched: Option<Vec<u8>>,
) -> (r: MlbGameClientInfo)
    ensures
        client_info_ok(r, *game, kickoff_utc, utc_offset as int, fetched),
        r.title@.len() > 0,
        recap_article(*game).is_none() || fetched.is_none() ==> r.image.is_none(),
{
    let title = title_of(game);
    let url = recap_image_url(game);
    match (url, fetched) {
        (Some(_), Some(bytes)) => {
            let headline = match &game.content.editorial {
                Some(editorial) => match &editorial.recap.mlb {
                    Some(article) => article.headline.clone(),
                    None => String::new(),
                },
                None => String::new(),
            };
            MlbGameClientInfo { title, image: Some(bytes), summary: headline }
        },
        _ => MlbGameClientInfo {
            title,
            image: None,
            summary: kickoff_text(kickoff_utc, utc_offset),
        },
    }
}

/// The start of a game, in seconds since the Unix epoch, as read from its
/// timestamp; `None` where it cannot be read.
pub fn kickoff_utc(game: &MlbGameInfo) -> (r: Option<i64>)
    ensures
        r == utc_seconds_of(game.game_date@),
{
    parse_utc_seconds(game.game_date.as_str())
}

/// Builds the display record of a game, reading its start from its
/// timestamp; see `client_info_from`.
pub fn extract_client_info(game: &MlbGameInfo, utc_offset: i32, fetched: Option<Vec<u8>>) -> (r:
    MlbGameClientInfo)
    ensures
        client_info_ok(r, *game, utc_seconds_of(game.game_date@), utc_offset as int, fetched),
        r.title@.len() > 0,
        recap_article(*game).is_none() || fetched.is_none() ==> r.image.is_none(),
{
    let kickoff = kickoff_utc(game);
    client_info_from(game, kickoff, utc_offset, fetched)
}

/// The games of the first date of a schedule range, in the order given;
/// none where the range holds no date.
pub fn first_day_games(range: MlbGameRange) -> (r: Vec<MlbGameInfo>)
    ensures
        range.dates@.len() == 0 ==> r@.len() == 0,
        range.dates@.len() > 0 ==> r@ == range.dates@[0].games@,
{
    let mut dates = range.dates;
    if dates.len() == 0 {
        Vec::new()
    } else {
        dates.swap_remove(0).games
    }
}

/// The outcome of fetching the recap image of game `i`: `None` where no
/// outcome was given for it.
pub open spec fn fetched_at(fetched: Seq<Option<Vec<u8>>>, i: int) -> Option<Vec<u8>> {
    if i < fetched.len() {
        fetched[i]
    } else {
        None
    }
}

/// The offset east of UTC, in seconds, in force at the start of game `i`:
/// UTC where none was given for it.
pub open spec fn offset_at(utc_offsets: Seq<i32>, i: int) -> int {
    if i < utc_offsets.len() {
        utc_offsets[i] as int
    } else {
        0
    }
}

/// Builds the display records of a day's games, in the order of the games,
/// from the outcomes of fetching their recap images (`fetched[i]` for game
/// `i`) and the offsets from UTC in force at their starts (`utc_offsets[i]`).
pub fn extract_game_info(
    games: &Vec<MlbGameInfo>,
    utc_offsets: &Vec<i32>,
    fetched: Vec<Option<Vec<u8>>>,
) -> (r: Vec<MlbGameClientInfo>)
    ensures
        r@.len() == games@.len(),
        forall|i: int|
            0 <= i < games@.len() ==> client_info_ok(
                #[trigger] r@[i],
                games@[i],
                utc_seconds_of(games@[i].game_date@),
                offset_at(utc_offsets@, i),
                fetched_at(fetched@, i),
            ),
{
    let ghost orig = fetched@;
    let mut fetched = fetched;
    let mut r: Vec<MlbGameClientInfo> = Vec::with_capacity(games.len());
    let mut i: usize = 0;
    while i < games.len()
        invariant
            i <= games@.len(),
            r@.len() == i,
            fetched@ == if i <= orig.len() {
                orig.skip(i as int)
            } else {
                Seq::<Option<Vec<u8>>>::empty()
            },
            forall|j: int|
                0 <= j < i ==> client_info_ok(
                    #[trigger] r@[j],
                    games@[j],
                    utc_seconds_of(games@[j].game_date@),
                    offset_at(utc_offsets@, j),
                    fetched_at(orig, j),
                ),
        decreases games@.len() - i,
    {
        let image = if fetched.len() > 0 {
            fetched.remove(0)
        } else {
            None
        };
        proof {
            assert(image == fetched_at(orig, i as int));
        }
        let utc_offset: i32 = if i < utc_offsets.len() {
            utc_offsets[i]
        } else {
            0
        };
        r.push(extract_client_info(&games[i], utc_offset, image));
        proof {
            if i + 1 <= orig.len() {
                assert(fetched@ =~= orig.skip(i + 1));
            } else {
                assert(fetched@ =~= Seq::<Option<Vec<u8>>>::empty());
            }
        }
        i = i + 1;
    }
    r
}

} // verus!
