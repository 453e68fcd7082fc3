use crate::monitor::{lemma_push_capped_bounded, push_capped, SystemMonitor};
use vstd::prelude::*;

verus! {

/// Records one memory usage sample (the used share of physical memory, in
/// percent, computed by the caller): it goes to the back of the memory
/// history, capped at `max_history`.
pub fn refresh_memory<T>(app: &mut SystemMonitor<T>, mem_pct: T)
    ensures
        final(app)@ == old(app)@.with_mem(
            push_capped(old(app)@.mem, mem_pct, old(app)@.max_history),
        ),
        old(app)@.wf() ==> final(app)@.wf(),
{
    let max = app.max_history;
    proof {
        if old(app)@.wf() {
            lemma_push_capped_bounded(old(app)@.mem, mem_pct, max as nat);
        }
    }
    SystemMonitor::push_history(&mut app.mem_history, mem_pct, max);
}

} // verus!
