//! Text shown in the result table: shortened paths and ages.
use vstd::prelude::*;
use crate::location::{Location, Part, PartView};
use crate::text::{chars_of, decimal, ends_with, extend_chars, push_decimal, string_of};

verus! {

/// Nanoseconds since the Unix epoch, negative before it.
pub type Timestamp = i128;

pub const NANOS_PER_SECOND: i128 = 1_000_000_000;

/// Shown where a value is not known yet.
pub open spec fn pending_text() -> Seq<char> {
    "..."@
}

/// `text` cut from the left to at most `width` characters, an ellipsis
/// standing for what was cut.
pub open spec fn truncated_left(text: Seq<char>, width: nat) -> Seq<char> {
    if text.len() <= width {
        text
    } else if width == 0 {
        Seq::empty()
    } else if width == 1 {
        seq!['…']
    } else {
        seq!['…'] + text.skip(text.len() - (width - 1))
    }
}

pub fn truncate_left(text: &str, width: usize) -> (r: String)
    ensures
        r@ == truncated_left(text@, width as nat),
{
    let chars = chars_of(text);
    if chars.len() <= width {
        return string_of(chars.as_slice());
    }
    if width == 0 {
        return String::new();
    }
    let mut out: Vec<char> = Vec::new();
    out.push('…');
    if width > 1 {
        let mut i: usize = chars.len() - (width - 1);
        let ghost start = i;
        while i < chars.len()
            invariant
                start == chars@.len() - (width - 1),
                start <= i <= chars@.len(),
                out@ == seq!['…'] + chars@.subrange(start as int, i as int),
            decreases chars@.len() - i,
        {
            out.push(chars[i]);
            assert(chars@.subrange(start as int, i + 1) == chars@.subrange(start as int, i as int).push(
                chars@[i as int],
            ));
            i = i + 1;
        }
        assert(chars@.subrange(start as int, chars@.len() as int) =~= chars@.skip(start as int));
    }
    string_of(out.as_slice())
}

pub open spec fn minute() -> nat {
    60
}

pub open spec fn hour() -> nat {
    3600
}

pub open spec fn day() -> nat {
    86400
}

/// How long ago, in the largest unit that fits: seconds under a minute,
/// minutes under an hour, hours under a day, days under thirty days, months
/// of thirty days under a year of 365 days, years beyond.
pub open spec fn age_text(seconds: nat) -> Seq<char> {
    if seconds < minute() {
        decimal(seconds) + "s ago"@
    } else if seconds < hour() {
        decimal(seconds / minute()) + "m ago"@
    } else if seconds < day() {
        decimal(seconds / hour()) + "h ago"@
    } else if seconds < day() * 30 {
        decimal(seconds / day()) + "d ago"@
    } else if seconds < day() * 365 {
        decimal(seconds / (day() * 30)) + "mo ago"@
    } else {
        decimal(seconds / (day() * 365)) + "y ago"@
    }
}

fn with_suffix(n: u64, suffix: &str) -> (r: String)
    ensures
        r@ == decimal(n as nat) + suffix@,
{
    let mut out: Vec<char> = Vec::new();
    push_decimal(&mut out, n);
    extend_chars(&mut out, chars_of(suffix).as_slice());
    string_of(out.as_slice())
}

pub fn format_age(seconds: u64) -> (r: String)
    ensures
        r@ == age_text(seconds as nat),
{
    if seconds < 60 {
        return with_suffix(seconds, "s ago");
    }
    if seconds < 3600 {
        return with_suffix(seconds / 60, "m ago");
    }
    if seconds < 86400 {
        return with_suffix(seconds / 3600, "h ago");
    }
    if seconds < 86400 * 30 {
        return with_suffix(seconds / 86400, "d ago");
    }
    if seconds < 86400 * 365 {
        return with_suffix(seconds / (86400 * 30), "mo ago");
    }
    with_suffix(seconds / (86400 * 365), "y ago")
}

/// Whole seconds from `modified` to `now`, zero when `modified` is later.
pub open spec fn age_seconds(modified: Timestamp, now: Timestamp) -> nat {
    if modified <= now {
        ((now - modified) / (NANOS_PER_SECOND as int)) as nat
    } else {
        0
    }
}

/// `t` lies in the range of system times: whole seconds fit an `i64`.
pub open spec fn valid_timestamp(t: Timestamp) -> bool {
    -9_223_372_036_854_775_808 * 1_000_000_000 <= t < 9_223_372_036_854_775_808 * 1_000_000_000
}

pub fn elapsed_seconds(modified: Timestamp, now: Timestamp) -> (r: u64)
    requires
        valid_timestamp(modified),
        valid_timestamp(now),
    ensures
        r == age_seconds(modified, now),
{
    if modified <= now {
        let diff: i128 = now - modified;
        assert(diff / NANOS_PER_SECOND <= u64::MAX) by (nonlinear_arith)
            requires
                0 <= diff < 2 * 9_223_372_036_854_775_808 * 1_000_000_000,
        ;
        (diff / NANOS_PER_SECOND) as u64
    } else {
        0
    }
}

/// How long ago `modified` was, `...` when it is unknown.
pub open spec fn relative_age_text(modified: Option<Timestamp>, now: Timestamp) -> Seq<char> {
    match modified {
        None => pending_text(),
        Some(m) => age_text(age_seconds(m, now)),
    }
}

pub fn relative_age(modified: Option<Timestamp>, now: Timestamp) -> (r: String)
    requires
        modified matches Some(m) ==> valid_timestamp(m),
        valid_timestamp(now),
    ensures
        r@ == relative_age_text(modified, now),
{
    match modified {
        None => string_of(chars_of("...").as_slice()),
        Some(m) => format_age(elapsed_seconds(m, now)),
    }
}

/// The shade in which an age is shown, from fresh to faded.
#[derive(Clone, Copy, Debug, PartialEq, Eq, Structural)]
pub enum AgeTone {
    /// Under a day.
    Fresh,
    /// Under thirty days.
    Recent,
    /// Under 180 days.
    Settled,
    /// Older, or unknown.
    Faded,
}

pub open spec fn tone_of(modified: Option<Timestamp>, now: Timestamp) -> AgeTone {
    match modified {
        None => AgeTone::Faded,
        Some(m) => {
            let s = age_seconds(m, now);
            if s < day() {
                AgeTone::Fresh
            } else if s < day() * 30 {
                AgeTone::Recent
            } else if s < day() * 180 {
                AgeTone::Settled
            } else {
                AgeTone::Faded
            }
        },
    }
}

pub fn age_tone(modified: Option<Timestamp>, now: Timestamp) -> (r: AgeTone)
    requires
        modified matches Some(m) ==> valid_timestamp(m),
        valid_timestamp(now),
    ensures
        r == tone_of(modified, now),
{
    match modified {
        None => AgeTone::Faded,
        Some(m) => {
            let s = elapsed_seconds(m, now);
            if s < 86400 {
                AgeTone::Fresh
            } else if s < 86400 * 30 {
                AgeTone::Recent
            } else if s < 86400 * 180 {
                AgeTone::Settled
            } else {
                AgeTone::Faded
            }
        },
    }
}

/// A truncated text fits its width, and past the ellipsis it ends as the
/// full text ends.
pub proof fn lemma_truncation_fits(text: Seq<char>, width: nat)
    ensures
        truncated_left(text, width).len() <= width,
        truncated_left(text, width).len() == (if text.len() <= width { text.len() } else { width }),
        width >= 2 ==> ends_with(text, truncated_left(text, width).drop_first()) || text.len() <= width,
{
    if text.len() > width && width >= 2 {
        let kept = text.skip(text.len() - (width - 1));
        assert(truncated_left(text, width).drop_first() =~= kept);
        assert(text.subrange(text.len() - kept.len(), text.len() as int) =~= kept);
    }
}

/// The name `~` stands for the home directory in a shown path.
pub open spec fn home_mark() -> PartView {
    PartView::Named(seq![126u8])
}

/// A path as the table shows it: inside the home directory `home`, it is
/// `~` followed by the rest of the path (`~` alone for the home directory
/// itself); anywhere else it is the path itself.
pub open spec fn shown_path(path: Seq<PartView>, home: Option<Seq<PartView>>) -> Seq<PartView> {
    match home {
        Some(h) => if h.len() <= path.len() && path.take(h.len() as int) == h {
            seq![home_mark()] + path.skip(h.len() as int)
        } else {
            path
        },
        None => path,
    }
}

/// `path` as the table shows it, given the home directory when known.
pub fn home_relative(path: &Location, home: Option<&Location>) -> (r: Location)
    ensures
        r@ == shown_path(
            path@,
            match home {
                Some(h) => Some(h@),
                None => None,
            },
        ),
{
    match home {
        Some(h) => match path.strip_prefix(h) {
            Some(rest) => {
                let mut mark: Vec<u8> = Vec::new();
                mark.push(126u8);
                assert(mark@ =~= seq![126u8]);
                rest.prefixed(Part::Named(mark))
            },
            None => path.duplicate(),
        },
        None => path.duplicate(),
    }
}

/// The age in whole seconds is the number of full seconds from `modified`
/// to `now`, and zero when `modified` is not earlier than `now`.
pub proof fn lemma_age_counts_full_seconds(modified: Timestamp, now: Timestamp)
    ensures
        modified <= now ==> age_seconds(modified, now) * 1_000_000_000 <= now - modified < (
        age_seconds(modified, now) + 1) * 1_000_000_000,
        modified >= now ==> age_seconds(modified, now) == 0,
{
    if modified <= now {
        let d = now - modified;
        assert(d / 1_000_000_000 * 1_000_000_000 <= d < (d / 1_000_000_000 + 1) * 1_000_000_000)
            by (nonlinear_arith)
            requires
                d >= 0,
        ;
    }
}

/// Where a shade stands from fresh to faded.
pub open spec fn tone_rank(t: AgeTone) -> int {
    match t {
        AgeTone::Fresh => 0,
        AgeTone::Recent => 1,
        AgeTone::Settled => 2,
        AgeTone::Faded => 3,
    }
}

/// An older artifact is never shown fresher than a newer one: the shade
/// only fades with age, is fresh under a day, faded from 180 days on, and
/// faded when the time is unknown.
pub proof fn lemma_tone_fades_with_age(newer: Timestamp, older: Timestamp, now: Timestamp)
    requires
        older <= newer,
    ensures
        tone_rank(tone_of(Some(newer), now)) <= tone_rank(tone_of(Some(older), now)),
        age_seconds(newer, now) < 86400 ==> tone_of(Some(newer), now) == AgeTone::Fresh,
        age_seconds(older, now) >= 86400 * 180 ==> tone_of(Some(older), now) == AgeTone::Faded,
        tone_of(None, now) == AgeTone::Faded,
{
    let a = now - newer;
    let b = now - older;
    if older <= now {
        assert(a <= b);
        if newer <= now {
            assert(a / 1_000_000_000 <= b / 1_000_000_000) by (nonlinear_arith)
                requires
                    0 <= a <= b,
            ;
        }
    }
}

/// Showing a path only shortens the home directory: a path is shown as
/// it is unless it lies in the home directory, and then putting the home
/// directory back in place of the leading `~` gives the path again.
pub proof fn lemma_shown_path_restores(path: Seq<PartView>, home: Seq<PartView>)
    ensures
        shown_path(path, None) == path,
        shown_path(path, Some(home)) != path ==> home.len() <= path.len() && path.take(
            home.len() as int,
        ) == home,
        home.len() <= path.len() && path.take(home.len() as int) == home ==> shown_path(
            path,
            Some(home),
        )[0] == home_mark() && home + shown_path(path, Some(home)).drop_first() == path,
{
    if home.len() <= path.len() && path.take(home.len() as int) == home {
        let shown = shown_path(path, Some(home));
        assert(shown.drop_first() =~= path.skip(home.len() as int));
        assert(home + shown.drop_first() =~= path);
    }
}

/// An age is shown as a count and a unit, the largest unit that fits: the
/// count of whole units elapsed, at least one for every unit but seconds,
/// and fewer than make up the next unit (sixty seconds or minutes,
/// twenty-four hours, thirty days, months until a year of 365 days).
pub proof fn lemma_age_text_units(seconds: nat)
    ensures
        exists|n: nat, unit: Seq<char>|
            #![trigger decimal(n) + unit]
            age_text(seconds) == decimal(n) + unit && {
                ||| unit == "s ago"@ && n == seconds && seconds < 60
                ||| unit == "m ago"@ && 1 <= n < 60 && n * 60 <= seconds < (n + 1) * 60
                ||| unit == "h ago"@ && 1 <= n < 24 && n * 3600 <= seconds < (n + 1) * 3600
                ||| unit == "d ago"@ && 1 <= n < 30 && n * 86400 <= seconds < (n + 1) * 86400
                ||| unit == "mo ago"@ && 1 <= n && n * 2592000 <= seconds < (n + 1) * 2592000
                    && seconds < 31536000
                ||| unit == "y ago"@ && 1 <= n && n * 31536000 <= seconds < (n + 1) * 31536000
            },
{
    let s = seconds;
    if s < 60 {
        assert(age_text(s) == decimal(s) + "s ago"@);
    } else if s < 3600 {
        let n = s / 60;
        assert(1 <= n < 60 && n * 60 <= s < (n + 1) * 60) by (nonlinear_arith)
            requires
                60 <= s < 3600,
                n == s / 60,
        ;
        assert(age_text(s) == decimal(n) + "m ago"@);
    } else if s < 86400 {
        let n = s / 3600;
        assert(1 <= n < 24 && n * 3600 <= s < (n + 1) * 3600) by (nonlinear_arith)
            requires
                3600 <= s < 86400,
                n == s / 3600,
        ;
        assert(age_text(s) == decimal(n) + "h ago"@);
    } else if s < 2592000 {
        let n = s / 86400;
        assert(1 <= n < 30 && n * 86400 <= s < (n + 1) * 86400) by (nonlinear_arith)
            requires
                86400 <= s < 2592000,
                n == s / 86400,
        ;
        assert(age_text(s) == decimal(n) + "d ago"@);
    } else if s < 31536000 {
        let n = s / 2592000;
        assert(1 <= n && n * 2592000 <= s < (n + 1) * 2592000) by (nonlinear_arith)
            requires
                2592000 <= s,
                n == s / 2592000,
        ;
        assert(age_text(s) == decimal(n) + "mo ago"@);
    } else {
        let n = s / 31536000;
        assert(1 <= n && n * 31536000 <= s < (n + 1) * 31536000) by (nonlinear_arith)
            requires
                31536000 <= s,
                n == s / 31536000,
        ;
        assert(age_text(s) == decimal(n) + "y ago"@);
    }
}

} // verus!
