//! What the listing learns from the system through other crates: user and
//! group names, the local time and the terminal's width, and how bytes are
//! shown as text. Each item here is believed, not proved.

use vstd::prelude::*;
use vstd::utf8::valid_utf8;
use crate::entry::FileTime;

verus! {

/// The text `String::from_utf8_lossy` makes of `bytes`, as UTF-8 bytes.
pub uninterp spec fn utf8_lossy(bytes: Seq<u8>) -> Seq<u8>;

/// Calls `String::from_utf8_lossy`. Claimed: the result is `utf8_lossy` of
/// the argument; it is valid UTF-8; and bytes that are already valid UTF-8
/// come back unchanged (std documents that only invalid sequences are
/// replaced, by U+FFFD).
#[verifier::external_body]
pub(crate) fn to_utf8_lossy(bytes: &[u8]) -> (r: Vec<u8>)
    ensures
        r@ == utf8_lossy(bytes@),
        valid_utf8(r@),
        valid_utf8(bytes@) ==> r@ == bytes@,
{
    String::from_utf8_lossy(bytes).into_owned().into_bytes()
}

/// Calls nix's `User::from_uid`: the name of the user with this id in the
/// system's user database, or `None` where there is none or the lookup
/// fails. Claimed only that a name is valid UTF-8 (nix makes it with
/// `to_string_lossy`); which name comes back depends on the system.
#[verifier::external_body]
pub(crate) fn lookup_user_name(uid: u32) -> (r: Option<Vec<u8>>)
    ensures
        r matches Some(n) ==> valid_utf8(n@),
{
    match nix::unistd::User::from_uid(nix::unistd::Uid::from_raw(uid)) {
        Ok(Some(user)) => Some(user.name.into_bytes()),
        Ok(None) => None,
        Err(_) => None,
    }
}

/// Calls nix's `Group::from_gid`: the name of the group with this id in the
/// system's group database, or `None` where there is none or the lookup
/// fails. Claimed only that a name is valid UTF-8 (nix makes it with
/// `to_string_lossy`); which name comes back depends on the system.
#[verifier::external_body]
pub(crate) fn lookup_group_name(gid: u32) -> (r: Option<Vec<u8>>)
    ensures
        r matches Some(n) ==> valid_utf8(n@),
{
    match nix::unistd::Group::from_gid(nix::unistd::Gid::from_raw(gid)) {
        Ok(Some(group)) => Some(group.name.into_bytes()),
        Ok(None) => None,
        Err(_) => None,
    }
}

/// The times chrono can place on its calendar with room for a time zone's
/// offset: from the first day of the year -262143 to the last of the year
/// 262142 (chrono's own range), less one day at either end, and fewer
/// nanoseconds than a second holds.
pub open spec fn in_calendar_range(t: FileTime) -> bool {
    &&& -8_334_601_228_800 <= t.secs <= 8_210_266_790_399
    &&& t.nanos < 1_000_000_000
}

/// The two patterns a listing writes times with: month, day and year, or
/// month, day, hour and minute. chrono formats each without error.
pub open spec fn known_time_pattern(pattern: Seq<char>) -> bool {
    pattern == "%b %e  %Y"@ || pattern == "%b %e %H:%M"@
}

/// Calls chrono: `Local::now().signed_duration_since(t).num_days()` with `t`
/// made by `DateTime::from_timestamp` and put in the local time zone (chrono
/// falls back to UTC where it cannot read the zone). Nothing is claimed of
/// the result: it depends on the clock. The chrono calls stand together
/// here because a `DateTime` cannot be held in verified code (its type is
/// bounded by chrono's `TimeZone` trait).
#[verifier::external_body]
pub(crate) fn days_since(t: FileTime) -> (days: i64)
    requires
        in_calendar_range(t),
{
    let then = chrono::DateTime::from_timestamp(t.secs, t.nanos).unwrap().with_timezone(
        &chrono::Local,
    );
    chrono::Local::now().signed_duration_since(then).num_days()
}

/// Calls chrono: `t`, made by `DateTime::from_timestamp` and put in the
/// local time zone, written with `format(pattern)`. Claimed only that the
/// text is valid UTF-8 (it is a `String`); what it says depends on the time
/// zone. The pattern is one of the two the listing uses: chrono reports an
/// error for an unknown specifier, on which `to_string` would panic.
#[verifier::external_body]
pub(crate) fn format_local_time(t: FileTime, pattern: &str) -> (r: Vec<u8>)
    requires
        in_calendar_range(t),
        known_time_pattern(pattern@),
    ensures
        valid_utf8(r@),
{
    chrono::DateTime::from_timestamp(t.secs, t.nanos).unwrap().with_timezone(
        &chrono::Local,
    ).format(pattern).to_string().into_bytes()
}

/// Calls `terminal_size::terminal_size()`: the width in columns of the
/// terminal on standard output, error or input, if any is one. Nothing is
/// claimed of it.
#[verifier::external_body]
pub(crate) fn terminal_width() -> (w: Option<u16>) {
    match terminal_size::terminal_size() {
        Some((terminal_size::Width(w), _)) => Some(w),
        None => None,
    }
}

} // verus!
