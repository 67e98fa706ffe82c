//! Wall-clock measurements of the phases of a run, through `web_time`,
//! which is `std::time` on native targets and the browser's clock on the
//! web. Durations are kept as nanosecond counts.
use vstd::prelude::*;
use web_time::Instant;

verus! {

#[verifier::external_type_specification]
#[verifier::external_body]
pub struct ExInstant(Instant);

/// `web_time::Instant::now`: the current instant. Nothing is claimed of
/// its value, which is the machine's clock.
#[verifier::external_body]
pub(crate) fn clock_start() -> (r: Instant) {
    Instant::now()
}

/// `web_time::Instant::elapsed`, in nanoseconds: the time since `start`.
/// Nothing is claimed of its value, which is the machine's clock.
#[verifier::external_body]
pub(crate) fn nanos_since(start: &Instant) -> (r: u128) {
    start.elapsed().as_nanos()
}

/// How `std::time::Duration`'s `Debug` writes a duration of `secs`
/// seconds and `nanos` nanoseconds, such as `1.5ms`.
pub uninterp spec fn duration_text(secs: u64, nanos: u32) -> Seq<char>;

/// `Debug` of `std::time::Duration::new(secs, nanos)`, which depends on
/// the two numbers alone.
#[verifier::external_body]
pub(crate) fn duration_debug(secs: u64, nanos: u32) -> (r: String)
    requires
        nanos < 1_000_000_000,
    ensures
        r@ == duration_text(secs, nanos),
{
    format!("{:?}", std::time::Duration::new(secs, nanos))
}

/// A nanosecond count written as `Duration`'s `Debug` writes it.
pub fn nanos_text(nanos: u128) -> (r: String)
    ensures
        r@ == duration_text(
            (if nanos / 1_000_000_000 > u64::MAX as u128 { u64::MAX as int } else { (nanos / 1_000_000_000) as int }) as u64,
            (nanos % 1_000_000_000) as u32,
        ),
{
    let secs = nanos / 1_000_000_000;
    let secs: u64 = if secs > u64::MAX as u128 { u64::MAX } else { secs as u64 };
    let sub = (nanos % 1_000_000_000) as u32;
    duration_debug(secs, sub)
}

} // verus!
