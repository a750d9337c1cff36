//! The load averages of `/proc/loadavg`, such as `"0.52 0.58 0.59 1/467 12345"`:
//! its first three whitespace-separated fields are the 1-, 5- and 15-minute
//! averages.
use vstd::prelude::*;
use vstd::string::StrSliceExecFns;

use crate::text::{chars_of, field_spans, fields};

verus! {

/// The first three whitespace-separated fields of `contents`, which hold the
/// 1-, 5- and 15-minute load averages; `None` where there are fewer than three.
pub fn load_average_fields(contents: &str) -> (res: Option<(&str, &str, &str)>)
    ensures
        res is Some <==> fields(contents@).len() >= 3,
        res matches Some((load1, load5, load15)) ==> {
            &&& load1@ == fields(contents@)[0]
            &&& load5@ == fields(contents@)[1]
            &&& load15@ == fields(contents@)[2]
        },
{
    let text = chars_of(contents);
    let spans = field_spans(&text, 0, text.len());
    assert(text@.subrange(0, text@.len() as int) =~= text@);
    if spans.len() < 3 {
        return None;
    }
    let (a0, a1) = spans[0];
    let (b0, b1) = spans[1];
    let (c0, c1) = spans[2];
    let load1 = contents.substring_char(a0, a1);
    let load5 = contents.substring_char(b0, b1);
    let load15 = contents.substring_char(c0, c1);
    Some((load1, load5, load15))
}

} // verus!
