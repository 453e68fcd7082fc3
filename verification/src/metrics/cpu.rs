use crate::monitor::{lemma_push_capped_bounded, push_capped, SystemMonitor};
use vstd::prelude::*;

verus! {

/// Records one CPU usage sample (the average over all logical cores, read by
/// the caller from the operating system): it goes to the back of the CPU
/// history, and the oldest sample leaves once the history exceeds
/// `max_history` (not `history_length`, so that every time range stays
/// available).
pub fn refresh_cpu<T>(app: &mut SystemMonitor<T>, cpu_pct: T)
    ensures
        final(app)@ == old(app)@.with_cpu(
            push_capped(old(app)@.cpu, cpu_pct, old(app)@.max_history),
        ),
        old(app)@.wf() ==> final(app)@.wf(),
{
    let max = app.max_history;
    proof {
        if old(app)@.wf() {
            lemma_push_capped_bounded(old(app)@.cpu, cpu_pct, max as nat);
        }
    }
    SystemMonitor::push_history(&mut app.cpu_history, cpu_pct, max);
}

} // verus!
