//! the editor's click counts. repeat presses of the same button, soon enough
//! and close enough together, count up; the count cycles after a triple
//! click, so mashing goes caret, word, line, caret, ... instead of
//! counting up forever. whether a press repeats the last one is measured
//! by the windowing layer, in its own units of time and distance.

use vstd::prelude::*;

verus! {

/// the click count of a press after one that counted `clicks`: a repeat
/// press counts up and wraps after three; any other press counts one
pub fn next_click_count(clicks: i32, repeat: bool) -> (n: i32)
    requires
        clicks >= 0,
    ensures
        n == (if repeat {
            clicks % 3 + 1
        } else {
            1
        }),
        1 <= n <= 3,
{
    if repeat {
        clicks % 3 + 1
    } else {
        1
    }
}

/// mashing cycles: three repeats after any press bring the count back
pub proof fn lemma_clicks_cycle(clicks: i32)
    requires
        1 <= clicks <= 3,
    ensures
        ((((clicks % 3 + 1) % 3 + 1) % 3) + 1) == clicks,
{
}

} // verus!
