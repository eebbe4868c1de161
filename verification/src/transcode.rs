//! What the transcoder is asked for: stills at the rate at which they will be
//! played.

use crate::schedule::FrameRate;
use vstd::prelude::*;

verus! {

/// A number written in decimal digits, without leading zeros.
pub open spec fn decimal_digits(n: nat) -> Seq<u8>
    decreases n,
{
    if n < 10 {
        seq![(0x30 + n) as u8]
    } else {
        decimal_digits(n / 10).push((0x30 + n % 10) as u8)
    }
}

/// The name of the transcoder's filter that sets the rate, up to the rate:
/// `fps=fps=`.
pub open spec fn filter_name() -> Seq<u8> {
    seq![0x66u8, 0x70u8, 0x73u8, 0x3du8, 0x66u8, 0x70u8, 0x73u8, 0x3du8]
}

/// The filter that makes the transcoder give stills at a rate: `fps=fps=`,
/// the frames, a slash, the seconds.
pub open spec fn filter_for(fps: FrameRate) -> Seq<u8> {
    filter_name() + decimal_digits(fps.frames as nat) + seq![0x2fu8] + decimal_digits(
        fps.seconds as nat,
    )
}

/// Writes a number in decimal digits at the end of `out`.
pub fn push_decimal(n: u32, out: &mut Vec<u8>)
    ensures
        final(out)@ == old(out)@ + decimal_digits(n as nat),
    decreases n,
{
    if n >= 10 {
        push_decimal(n / 10, out);
    }
    out.push(0x30 + (n % 10) as u8);
    assert(final(out)@ =~= old(out)@ + decimal_digits(n as nat));
}

/// The filter that makes the transcoder give stills at a rate, in ASCII.
pub fn fps_filter(fps: FrameRate) -> (filter: Vec<u8>)
    ensures
        filter@ == filter_for(fps),
{
    let mut filter: Vec<u8> = Vec::new();
    filter.push(0x66);
    filter.push(0x70);
    filter.push(0x73);
    filter.push(0x3d);
    filter.push(0x66);
    filter.push(0x70);
    filter.push(0x73);
    filter.push(0x3d);
    assert(filter@ =~= filter_name());
    push_decimal(fps.frames, &mut filter);
    filter.push(0x2f);
    push_decimal(fps.seconds, &mut filter);
    assert(filter@ =~= filter_for(fps));
    filter
}

} // verus!
