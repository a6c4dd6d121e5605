//! The block session: the hosts text with and without the managed region,
//! the delay after which a block is lifted, and the transitions between an
//! inactive and an active block.

use vstd::prelude::*;
use vstd::string::StringExecFns;
use crate::number::{decimal, parse_minutes};
use crate::region::{remove_lines, without_region};

verus! {

/// The line that opens the managed region.
pub open spec fn start_marker() -> Seq<char> {
    "# start block"@
}

/// The line that closes the managed region.
pub open spec fn end_marker() -> Seq<char> {
    "# end block"@
}

/// The hosts text without the managed region.
pub open spec fn unblocked(hosts: Seq<char>) -> Seq<char> {
    without_region(hosts, start_marker(), end_marker())
}

/// The hosts text with a fresh managed region that holds the deny list
/// `urls`: a region that was there before is taken out, then a blank line,
/// the start marker, the deny list and the end marker follow.
pub open spec fn blocked(hosts: Seq<char>, urls: Seq<char>) -> Seq<char> {
    unblocked(hosts) + "\n\n"@ + start_marker() + "\n"@ + urls + "\n"@ + end_marker()
}

/// The hosts text to write when the block is lifted.
pub fn stop(hosts: &str) -> (result: String)
    ensures
        result@ == unblocked(hosts@),
{
    remove_lines(hosts, "# start block", "# end block")
}

/// The hosts text to write when the block starts.
pub fn start(hosts: &str, urls: &str) -> (result: String)
    ensures
        result@ == blocked(hosts@, urls@),
{
    let mut result = stop(hosts);
    result.append("\n\n");
    result.append("# start block");
    result.append("\n");
    result.append(urls);
    result.append("\n");
    result.append("# end block");
    result
}

/// Why no delay can be had from the duration argument.
#[derive(Debug, PartialEq, Eq)]
pub enum DelayError {
    /// The argument is no whole number.
    NotANumber,
    /// The number of minutes is more than a delay can hold.
    OutOfRange,
}

/// The delays that the timer takes, `chrono::TimeDelta`. The library
/// hands such a value on and never looks inside.
#[verifier::external_type_specification]
#[verifier::external_body]
pub struct ExTimeDelta(chrono::TimeDelta);

/// The delay of `minutes` minutes, as `chrono::TimeDelta::try_minutes`
/// makes it.
pub uninterp spec fn minutes_delay(minutes: i64) -> chrono::TimeDelta;

/// Whether a delay can hold `minutes` minutes: in seconds it lies within
/// `i64::MAX` milliseconds on either side of zero.
pub open spec fn delay_in_range(minutes: i64) -> bool {
    -9_223_372_036_854_775 <= minutes * 60 <= 9_223_372_036_854_775
}

/// Wraps `chrono::TimeDelta::try_minutes`: it gives a delay exactly where
/// the minutes, in seconds, are no more than `i64::MAX / 1000` away from
/// zero, and the delay is a function of the minutes alone.
#[verifier::external_body]
fn try_minutes(minutes: i64) -> (d: Option<chrono::TimeDelta>)
    ensures
        d is Some <==> delay_in_range(minutes),
        d is Some ==> d->0 == minutes_delay(minutes),
{
    chrono::TimeDelta::try_minutes(minutes)
}

/// The delay for a duration argument that was read as `parsed`.
pub open spec fn delay_of(parsed: Option<i64>) -> Result<chrono::TimeDelta, DelayError> {
    match parsed {
        None => Err(DelayError::NotANumber),
        Some(minutes) => if delay_in_range(minutes) {
            Ok(minutes_delay(minutes))
        } else {
            Err(DelayError::OutOfRange)
        },
    }
}

/// The delay for a duration argument that was read as `parsed`, or the
/// reason why there is none.
pub fn delay_for(parsed: Option<i64>) -> (result: Result<chrono::TimeDelta, DelayError>)
    ensures
        result == delay_of(parsed),
{
    match parsed {
        None => Err(DelayError::NotANumber),
        Some(minutes) => match try_minutes(minutes) {
            Some(delay) => Ok(delay),
            None => Err(DelayError::OutOfRange),
        },
    }
}

/// The delay after which a block that was started with the duration
/// argument `minutes` is lifted.
pub fn timer_delay(minutes: &str) -> (result: Result<chrono::TimeDelta, DelayError>)
    ensures
        result == delay_of(decimal(minutes@)),
{
    delay_for(parse_minutes(minutes))
}

/// Whether a block is in place.
#[derive(Debug, Clone, Copy, PartialEq, Eq, Structural)]
pub enum Session {
    /// No block is in place and no timer is pending.
    Inactive,
    /// The managed region is written and one timer is pending.
    Active,
}

/// What happened, with the hosts text as it was read for the occasion.
pub enum Event {
    /// A block is asked for, with the deny list and the delay.
    Start { hosts: String, urls: String, delay: chrono::TimeDelta },
    /// The timer fired.
    Expired { hosts: String },
    /// The block is to be lifted now.
    Stop { hosts: String },
}

/// What the caller is to do.
pub enum Action {
    /// Write `hosts` and arm the one timer with `delay`.
    Activate { hosts: String, delay: chrono::TimeDelta },
    /// Write `hosts`.
    Deactivate { hosts: String },
    /// Do nothing: a block is in place already.
    Refuse,
}

/// Takes one step of the session. A start on an inactive session writes
/// the managed region and arms the timer; a start on an active one is
/// refused and changes nothing. The timer's firing and a stop lift the
/// block, in either state: to lift a block that is gone writes the hosts
/// text as it is.
pub fn step(session: Session, event: Event) -> (result: (Session, Action))
    ensures
        match event {
            Event::Start { hosts, urls, delay } => match session {
                Session::Inactive => {
                    &&& result.0 == Session::Active
                    &&& result.1 matches Action::Activate { hosts: h, delay: d }
                    &&& h@ == blocked(hosts@, urls@)
                    &&& d == delay
                },
                Session::Active => result.0 == Session::Active && result.1 is Refuse,
            },
            Event::Expired { hosts } | Event::Stop { hosts } => {
                &&& result.0 == Session::Inactive
                &&& result.1 matches Action::Deactivate { hosts: h }
                &&& h@ == unblocked(hosts@)
            },
        },
{
    match event {
        Event::Start { hosts, urls, delay } => match session {
            Session::Inactive => (
                Session::Active,
                Action::Activate { hosts: start(hosts.as_str(), urls.as_str()), delay },
            ),
            Session::Active => (Session::Active, Action::Refuse),
        },
        Event::Expired { hosts } => (
            Session::Inactive,
            Action::Deactivate { hosts: stop(hosts.as_str()) },
        ),
        Event::Stop { hosts } => (Session::Inactive, Action::Deactivate { hosts: stop(hosts.as_str()) }),
    }
}

} // verus!
