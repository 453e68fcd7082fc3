use std::collections::VecDeque;
use vstd::prelude::*;

verus! {

/// Appending `value` to the history `h` and then, when the result is longer
/// than `max_len`, dropping the oldest sample.
pub open spec fn push_capped<T>(h: Seq<T>, value: T, max_len: nat) -> Seq<T> {
    let pushed = h.push(value);
    if pushed.len() > max_len {
        pushed.drop_first()
    } else {
        pushed
    }
}

/// The history that results from pushing the samples `values`, in order,
/// onto `h` with the cap `max_len`.
pub open spec fn push_all<T>(h: Seq<T>, values: Seq<T>, max_len: nat) -> Seq<T>
    decreases values.len(),
{
    if values.len() == 0 {
        h
    } else {
        push_capped(push_all(h, values.drop_last(), max_len), values.last(), max_len)
    }
}

/// The last `min(n, s.len())` elements of `s`.
pub open spec fn latest<T>(s: Seq<T>, n: nat) -> Seq<T> {
    if s.len() <= n {
        s
    } else {
        s.subrange(s.len() - n, s.len() as int)
    }
}

/// A history that is within its cap stays within it after a push.
pub proof fn lemma_push_capped_bounded<T>(h: Seq<T>, value: T, max_len: nat)
    requires
        h.len() <= max_len,
    ensures
        push_capped(h, value, max_len).len() <= max_len,
        max_len > 0 ==> push_capped(h, value, max_len).last() == value,
{
}

/// A history that starts within its cap holds, after any number of pushes,
/// exactly the most recent `max_len` samples of everything it has seen (all
/// of them while there are fewer).
pub proof fn lemma_history_keeps_latest<T>(h: Seq<T>, values: Seq<T>, max_len: nat)
    requires
        h.len() <= max_len,
    ensures
        push_all(h, values, max_len) == latest(h + values, max_len),
    decreases values.len(),
{
    if values.len() == 0 {
        assert(h + values =~= h);
    } else {
        let prev = values.drop_last();
        lemma_history_keeps_latest(h, prev, max_len);
        let t = h + prev;
        let t1 = h + values;
        assert(t1 =~= t.push(values.last()));
        let r = latest(t, max_len);
        if t.len() < max_len {
            assert(r.push(values.last()) =~= t1);
        } else {
            assert(r =~= t.subrange(t.len() - max_len, t.len() as int));
            assert(r.push(values.last()).drop_first() =~= t1.subrange(
                t1.len() - max_len,
                t1.len() as int,
            ));
        }
    }
}

/// One disk's active-time history, under its drive-letter key (such as
/// `"C:"` or `"C: D:"`).
pub struct DiskHistory<T> {
    pub key: String,
    pub history: VecDeque<T>,
}

/// The abstract state of a [`SystemMonitor`].
pub struct MonitorView<T> {
    pub cpu: Seq<T>,
    pub mem: Seq<T>,
    pub net_recv: Seq<T>,
    pub net_sent: Seq<T>,
    pub igpu: Seq<T>,
    pub dgpu: Seq<T>,
    /// Disk histories in display order, each under its drive-letter key.
    pub disks: Seq<(Seq<char>, Seq<T>)>,
    pub history_length: nat,
    pub max_history: nat,
    pub selected_duration: u64,
}

impl<T> MonitorView<T> {
    /// The same state with the CPU history replaced.
    pub open spec fn with_cpu(self, h: Seq<T>) -> Self {
        MonitorView { cpu: h, ..self }
    }

    /// The same state with the memory history replaced.
    pub open spec fn with_mem(self, h: Seq<T>) -> Self {
        MonitorView { mem: h, ..self }
    }

    /// The same state with both network histories replaced.
    pub open spec fn with_net(self, recv: Seq<T>, sent: Seq<T>) -> Self {
        MonitorView { net_recv: recv, net_sent: sent, ..self }
    }

    /// The same state with both GPU histories replaced.
    pub open spec fn with_gpu(self, igpu: Seq<T>, dgpu: Seq<T>) -> Self {
        MonitorView { igpu, dgpu, ..self }
    }

    /// The same state with the disk histories replaced.
    pub open spec fn with_disks(self, disks: Seq<(Seq<char>, Seq<T>)>) -> Self {
        MonitorView { disks, ..self }
    }

    /// Every history is within the cap and no disk key occurs twice.
    pub open spec fn wf(self) -> bool {
        &&& self.cpu.len() <= self.max_history
        &&& self.mem.len() <= self.max_history
        &&& self.net_recv.len() <= self.max_history
        &&& self.net_sent.len() <= self.max_history
        &&& self.igpu.len() <= self.max_history
        &&& self.dgpu.len() <= self.max_history
        &&& forall|i: int| 0 <= i < self.disks.len() ==> #[trigger] self.disks[i].1.len() <= self.max_history
        &&& forall|i: int, j: int|
            0 <= i < self.disks.len() && 0 <= j < self.disks.len() && i != j ==> self.disks[i].0
                != self.disks[j].0
    }
}

/// The views of the disk histories.
pub open spec fn disks_view<T>(d: Seq<DiskHistory<T>>) -> Seq<(Seq<char>, Seq<T>)> {
    d.map_values(|e: DiskHistory<T>| (e.key@, e.history@))
}

/// The sample histories that the monitor keeps, generic over the sample
/// type, and the display settings that select how much of them is shown.
pub struct SystemMonitor<T> {
    /// Sliding window of CPU usage samples, oldest first.
    pub cpu_history: VecDeque<T>,
    /// Sliding window of memory usage samples, oldest first.
    pub mem_history: VecDeque<T>,
    /// Number of samples to display in the current time window.
    pub history_length: usize,
    /// The cap on every history: samples beyond it are dropped oldest first.
    pub max_history: usize,
    /// The currently selected time range in seconds.
    pub selected_duration: u64,
    /// Per-physical-disk active-time histories, in display order.
    pub disk_active_histories: Vec<DiskHistory<T>>,
    /// Download-rate history.
    pub net_recv_history: VecDeque<T>,
    /// Upload-rate history.
    pub net_sent_history: VecDeque<T>,
    /// Integrated-GPU utilization history.
    pub igpu_history: VecDeque<T>,
    /// Discrete-GPU utilization history.
    pub dgpu_history: VecDeque<T>,
}

impl<T> View for SystemMonitor<T> {
    type V = MonitorView<T>;

    open spec fn view(&self) -> MonitorView<T> {
        MonitorView {
            cpu: self.cpu_history@,
            mem: self.mem_history@,
            net_recv: self.net_recv_history@,
            net_sent: self.net_sent_history@,
            igpu: self.igpu_history@,
            dgpu: self.dgpu_history@,
            disks: disks_view(self.disk_active_histories@),
            history_length: self.history_length as nat,
            max_history: self.max_history as nat,
            selected_duration: self.selected_duration,
        }
    }
}

/// The number of samples every history keeps: one hour at one per second.
pub const MAX_HISTORY: usize = 3600;

/// The time range shown when the monitor starts, in seconds.
pub const DEFAULT_DURATION: u64 = 60;

impl<T> SystemMonitor<T> {
    /// A monitor with empty histories, a one-hour cap and a one-minute window.
    pub fn new() -> (res: Self)
        ensures
            res@.cpu.len() == 0,
            res@.mem.len() == 0,
            res@.net_recv.len() == 0,
            res@.net_sent.len() == 0,
            res@.igpu.len() == 0,
            res@.dgpu.len() == 0,
            res@.disks.len() == 0,
            res@.history_length == DEFAULT_DURATION,
            res@.max_history == MAX_HISTORY,
            res@.selected_duration == DEFAULT_DURATION,
            res@.wf(),
    {
        let res = SystemMonitor {
            cpu_history: VecDeque::with_capacity(MAX_HISTORY),
            mem_history: VecDeque::with_capacity(MAX_HISTORY),
            history_length: DEFAULT_DURATION as usize,
            max_history: MAX_HISTORY,
            selected_duration: DEFAULT_DURATION,
            disk_active_histories: Vec::new(),
            net_recv_history: VecDeque::with_capacity(MAX_HISTORY),
            net_sent_history: VecDeque::with_capacity(MAX_HISTORY),
            igpu_history: VecDeque::with_capacity(MAX_HISTORY),
            dgpu_history: VecDeque::with_capacity(MAX_HISTORY),
        };
        assert(disks_view(res.disk_active_histories@) =~= Seq::empty());
        res
    }

    /// Pushes `value` onto the back of `deque` and pops the oldest sample when
    /// the deque has grown beyond `max_len`.
    pub fn push_history(deque: &mut VecDeque<T>, value: T, max_len: usize)
        ensures
            final(deque)@ == push_capped(old(deque)@, value, max_len as nat),
    {
        deque.push_back(value);
        if deque.len() > max_len {
            let _ = deque.pop_front();
        }
    }
}

} // verus!
