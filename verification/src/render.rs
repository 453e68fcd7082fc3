use crate::monitor::{latest, SystemMonitor, MAX_HISTORY};
use std::collections::VecDeque;
use vstd::prelude::*;

verus! {

/// The time ranges offered by the selector: a label and a duration in
/// seconds (one sample per second).
pub open spec fn time_range_spec() -> Seq<(Seq<char>, u64)> {
    seq![
        ("30s"@, 30u64),
        ("1m"@, 60u64),
        ("5m"@, 300u64),
        ("10m"@, 600u64),
        ("30m"@, 1800u64),
        ("1h"@, 3600u64),
    ]
}

/// The time ranges offered by the selector, shortest first.
pub fn time_range_options() -> (res: Vec<(&'static str, u64)>)
    ensures
        res@.len() == time_range_spec().len(),
        forall|i: int|
            0 <= i < res@.len() ==> res@[i].0@ == time_range_spec()[i].0 && res@[i].1
                == time_range_spec()[i].1,
{
    let res = vec![("30s", 30u64), ("1m", 60), ("5m", 300), ("10m", 600), ("30m", 1800), ("1h", 3600)];
    assert(res@.len() == 6);
    res
}

/// Every selectable time range fits in the history cap, so switching to a
/// longer range shows samples that were kept in the background.
pub proof fn lemma_time_ranges_fit_history()
    ensures
        forall|i: int|
            0 <= i < time_range_spec().len() ==> time_range_spec()[i].1 <= MAX_HISTORY,
{
}

/// The x-axis label for a selected duration.
pub open spec fn x_axis_label_spec(duration: u64) -> Seq<char> {
    if duration == 30 {
        "Last 30 seconds"@
    } else if duration == 60 {
        "Last 1 minute"@
    } else if duration == 300 {
        "Last 5 minutes"@
    } else if duration == 600 {
        "Last 10 minutes"@
    } else if duration == 1800 {
        "Last 30 minutes"@
    } else if duration == 3600 {
        "Last 1 hour"@
    } else {
        "Time"@
    }
}

/// Human-readable x-axis label reflecting the selected time range.
pub fn x_axis_label(duration: u64) -> (res: &'static str)
    ensures
        res@ == x_axis_label_spec(duration),
{
    match duration {
        30 => "Last 30 seconds",
        60 => "Last 1 minute",
        300 => "Last 5 minutes",
        600 => "Last 10 minutes",
        1800 => "Last 30 minutes",
        3600 => "Last 1 hour",
        _ => "Time",
    }
}

/// Syncs the display window with the selected duration (one sample per
/// second).
pub fn sync_history_length<T>(app: &mut SystemMonitor<T>)
    ensures
        final(app)@ == (crate::monitor::MonitorView {
            history_length: (old(app)@.selected_duration as usize) as nat,
            ..old(app)@
        }),
{
    app.history_length = app.selected_duration as usize;
}

/// The samples a graph shows: the last `history_length` samples of the
/// history (all of them when it is shorter), oldest first.
pub fn visible_window<T: Copy>(history: &VecDeque<T>, history_length: usize) -> (res: Vec<T>)
    ensures
        res@ == latest(history@, history_length as nat),
{
    let len = history.len();
    let window = if history_length < len {
        history_length
    } else {
        len
    };
    let skip = len - window;
    let mut res: Vec<T> = Vec::new();
    let mut k = skip;
    while k < len
        invariant
            len == history@.len(),
            skip <= k <= len,
            res@ == history@.subrange(skip as int, k as int),
        decreases len - k,
    {
        res.push(history[k]);
        assert(history@.subrange(skip as int, k + 1) =~= history@.subrange(skip as int, k as int).push(
            history@[k as int],
        ));
        k += 1;
    }
    assert(history@.len() <= history_length ==> history@.subrange(0, len as int) =~= history@);
    res
}

/// A graph of a capped history shows the most recent
/// `min(history_length, max_len)` samples of everything recorded.
pub proof fn lemma_window_of_capped_history<T>(s: Seq<T>, max_len: nat, history_length: nat)
    ensures
        latest(latest(s, max_len), history_length) == latest(
            s,
            if history_length < max_len {
                history_length
            } else {
                max_len
            },
        ),
{
    let m = if history_length < max_len {
        history_length
    } else {
        max_len
    };
    assert(latest(latest(s, max_len), history_length) =~= latest(s, m));
}

} // verus!
