//! Progress reporting: the messages the worker thread produces, the
//! producer side of the one-way channel to the UI (whose disconnection is
//! the cancellation signal), and the UI-side reporter that throttles
//! updates to one per refresh interval unless a message is forced.

use crate::types::{format_size, spec_digits, spec_format_size, u64_to_string};
use vstd::prelude::*;

verus! {

/// One progress update: how many bytes of how many are done, a status
/// line, the estimated whole seconds remaining (negative when unknown),
/// and whether the UI must apply the update immediately.
pub struct TransferProgress {
    pub current: i64,
    pub total: i64,
    pub status: String,
    pub eta_seconds: i64,
    pub force: bool,
}

/// The status line shown while bytes are being counted or copied:
/// "done / total", or a placeholder while the total is still unknown.
pub open spec fn spec_size_progress_status(current: int, total: int) -> Seq<char> {
    if total < 0 {
        seq!['C', 'a', 'l', 'c', 'u', 'l', 'a', 't', 'i', 'n', 'g', '.', '.', '.']
    } else {
        spec_format_size(current as nat, false) + seq![' ', '/', ' '] + spec_format_size(
            total as nat,
            false,
        )
    }
}

/// Renders the byte-progress status line.
pub fn format_size_progress_status(current: i64, total: i64) -> (r: String)
    requires
        current >= 0,
    ensures
        r@ == spec_size_progress_status(current as int, total as int),
{
    if total < 0 {
        proof {
            reveal_strlit("Calculating...");
            assert("Calculating..."@ =~= spec_size_progress_status(current as int, total as int));
        }
        "Calculating...".to_owned()
    } else {
        let mut r = format_size(current as u64, false);
        proof {
            reveal_strlit(" / ");
            assert(" / "@ =~= seq![' ', '/', ' ']);
        }
        r.append(" / ");
        let t = format_size(total as u64, false);
        r.append(t.as_str());
        proof {
            assert(r@ =~= spec_size_progress_status(current as int, total as int));
        }
        r
    }
}

/// The status line for operations that also count files:
/// "done / total | n / m files.", or a placeholder while the total is
/// unknown or empty.
pub open spec fn spec_size_and_filecount_status(
    current_size: int,
    total_size: int,
    current_files: int,
    total_files: int,
) -> Seq<char> {
    if total_size <= 0 {
        seq!['C', 'a', 'l', 'c', 'u', 'l', 'a', 't', 'i', 'n', 'g', '.', '.', '.']
    } else {
        spec_format_size(current_size as nat, false) + seq![' ', '/', ' '] + spec_format_size(
            total_size as nat,
            false,
        ) + seq![' ', '|', ' '] + spec_digits(current_files as nat) + seq![' ', '/', ' ']
            + spec_digits(total_files as nat) + seq![' ', 'f', 'i', 'l', 'e', 's', '.']
    }
}

/// Renders the byte-and-file-count status line.
pub fn format_size_and_filecount_progress_status(
    current_size: i64,
    total_size: i64,
    current_files: i64,
    total_files: i64,
) -> (r: String)
    requires
        current_size >= 0,
        current_files >= 0,
        total_files >= 0,
    ensures
        r@ == spec_size_and_filecount_status(
            current_size as int,
            total_size as int,
            current_files as int,
            total_files as int,
        ),
{
    if total_size <= 0 {
        proof {
            reveal_strlit("Calculating...");
            assert("Calculating..."@ =~= spec_size_and_filecount_status(
                current_size as int,
                total_size as int,
                current_files as int,
                total_files as int,
            ));
        }
        "Calculating...".to_owned()
    } else {
        proof {
            reveal_strlit(" / ");
            assert(" / "@ =~= seq![' ', '/', ' ']);
            reveal_strlit(" | ");
            assert(" | "@ =~= seq![' ', '|', ' ']);
            reveal_strlit(" files.");
            assert(" files."@ =~= seq![' ', 'f', 'i', 'l', 'e', 's', '.']);
        }
        let mut r = format_size(current_size as u64, false);
        r.append(" / ");
        let t = format_size(total_size as u64, false);
        r.append(t.as_str());
        r.append(" | ");
        let cf = u64_to_string(current_files as u64);
        r.append(cf.as_str());
        r.append(" / ");
        let tf = u64_to_string(total_files as u64);
        r.append(tf.as_str());
        r.append(" files.");
        proof {
            assert(r@ =~= spec_size_and_filecount_status(
                current_size as int,
                total_size as int,
                current_files as int,
                total_files as int,
            ));
        }
        r
    }
}

/// The estimated-time-remaining label: "ETA 5s", "ETA 3m 5s" or
/// "ETA 2h 3m 5s", in whole seconds.
pub open spec fn spec_format_seconds(seconds: nat) -> Seq<char> {
    let hours = seconds / 3600;
    let minutes = (seconds % 3600) / 60;
    let rem = seconds % 60;
    let eta = seq!['E', 'T', 'A', ' '];
    if hours == 0 && minutes == 0 {
        eta + spec_digits(rem) + seq!['s']
    } else if hours == 0 {
        eta + spec_digits(minutes) + seq!['m', ' '] + spec_digits(rem) + seq!['s']
    } else {
        eta + spec_digits(hours) + seq!['h', ' '] + spec_digits(minutes) + seq!['m', ' ']
            + spec_digits(rem) + seq!['s']
    }
}

/// Renders the estimated time remaining.
pub fn format_seconds(seconds: u64) -> (r: String)
    ensures
        r@ == spec_format_seconds(seconds as nat),
{
    let hours = seconds / 3600;
    let minutes = (seconds % 3600) / 60;
    let rem = seconds % 60;
    proof {
        reveal_strlit("ETA ");
        assert("ETA "@ =~= seq!['E', 'T', 'A', ' ']);
        reveal_strlit("s");
        assert("s"@ =~= seq!['s']);
        reveal_strlit("m ");
        assert("m "@ =~= seq!['m', ' ']);
        reveal_strlit("h ");
        assert("h "@ =~= seq!['h', ' ']);
    }
    let mut r = "ETA ".to_owned();
    if hours == 0 && minutes == 0 {
        let d = u64_to_string(rem);
        r.append(d.as_str());
        r.append("s");
    } else if hours == 0 {
        let m = u64_to_string(minutes);
        r.append(m.as_str());
        r.append("m ");
        let d = u64_to_string(rem);
        r.append(d.as_str());
        r.append("s");
    } else {
        let h = u64_to_string(hours);
        r.append(h.as_str());
        r.append("h ");
        let m = u64_to_string(minutes);
        r.append(m.as_str());
        r.append("m ");
        let d = u64_to_string(rem);
        r.append(d.as_str());
        r.append("s");
    }
    proof {
        assert(r@ =~= spec_format_seconds(seconds as nat));
    }
    r
}

/// The worker-side end of one operation's progress channel. Messages are
/// delivered in send order; the receiver disappearing (the user closed the
/// progress window) makes every later send fail, which is the worker's
/// cancellation signal.
pub struct ProgressSink {
    connected: bool,
    sent: Vec<TransferProgress>,
}

impl ProgressSink {
    pub closed spec fn is_connected(self) -> bool {
        self.connected
    }

    pub closed spec fn log(self) -> Seq<TransferProgress> {
        self.sent@
    }

    /// A live channel with nothing sent yet.
    pub fn new() -> (r: ProgressSink)
        ensures
            r.is_connected(),
            r.log() == Seq::<TransferProgress>::empty(),
    {
        ProgressSink { connected: true, sent: Vec::new() }
    }

    /// Tears the receiving side down: every later send will fail.
    pub fn disconnect(&mut self)
        ensures
            !final(self).is_connected(),
            final(self).log() == old(self).log(),
    {
        self.connected = false;
    }

    /// Sends one update. Fails exactly when the receiver is gone, and
    /// otherwise appends the message to what was delivered.
    pub fn send(&mut self, msg: TransferProgress) -> (r: Result<(), ()>)
        ensures
            r is Ok <==> old(self).is_connected(),
            final(self).is_connected() == old(self).is_connected(),
            r is Ok ==> final(self).log() == old(self).log().push(msg),
            r is Err ==> final(self).log() == old(self).log(),
    {
        if self.connected {
            self.sent.push(msg);
            Ok(())
        } else {
            Err(())
        }
    }

    /// How many updates were delivered.
    pub fn sent_count(&self) -> (r: usize)
        ensures
            r == self.log().len(),
    {
        self.sent.len()
    }

    /// One delivered update.
    pub fn sent_message(&self, i: usize) -> (r: &TransferProgress)
        requires
            i < self.log().len(),
        ensures
            *r == self.log()[i as int],
    {
        &self.sent[i]
    }
}

/// The UI-side reporter: it keeps only the latest pending message and
/// applies one to the UI at most once per interval, except that forced
/// messages go through at once. It never applies a stale message after a
/// newer one, because only the newest message is ever kept.
pub struct ProgressReporter {
    pub interval_ms: u64,
    pub last_applied_at: u64,
    pub pending: Option<TransferProgress>,
}

/// Whether a message held at `now_ms` must be applied to the UI.
pub open spec fn spec_should_apply(
    force: bool,
    now_ms: u64,
    last_applied_at: u64,
    interval_ms: u64,
) -> bool {
    force || now_ms - last_applied_at > interval_ms
}

impl ProgressReporter {
    /// A reporter that last refreshed at `now_ms`.
    pub fn new(interval_ms: u64, now_ms: u64) -> (r: ProgressReporter)
        ensures
            r.interval_ms == interval_ms,
            r.last_applied_at == now_ms,
            r.pending is None,
    {
        ProgressReporter { interval_ms, last_applied_at: now_ms, pending: None }
    }

    /// Takes one received message, coalescing it over whatever was pending,
    /// and returns the update to apply to the UI now, if any: the newest
    /// message, exactly when it is forced or the interval has passed.
    pub fn on_message(&mut self, msg: TransferProgress, now_ms: u64) -> (applied: Option<
        TransferProgress,
    >)
        requires
            now_ms >= old(self).last_applied_at,
        ensures
            final(self).interval_ms == old(self).interval_ms,
            applied is Some <==> spec_should_apply(
                msg.force,
                now_ms,
                old(self).last_applied_at,
                old(self).interval_ms,
            ),
            applied is Some ==> applied->0 == msg && final(self).pending is None
                && final(self).last_applied_at == now_ms,
            applied is None ==> final(self).pending == Some(msg) && final(self).last_applied_at
                == old(self).last_applied_at,
    {
        if msg.force || now_ms - self.last_applied_at > self.interval_ms {
            self.pending = None;
            self.last_applied_at = now_ms;
            Some(msg)
        } else {
            self.pending = Some(msg);
            None
        }
    }

    /// Called when the receive timed out: applies the pending message if
    /// its time has come.
    pub fn on_timeout(&mut self, now_ms: u64) -> (applied: Option<TransferProgress>)
        requires
            now_ms >= old(self).last_applied_at,
        ensures
            final(self).interval_ms == old(self).interval_ms,
            applied is Some <==> (old(self).pending is Some && spec_should_apply(
                old(self).pending->0.force,
                now_ms,
                old(self).last_applied_at,
                old(self).interval_ms,
            )),
            applied is Some ==> applied == old(self).pending && final(self).pending is None
                && final(self).last_applied_at == now_ms,
            applied is None ==> final(self).pending == old(self).pending
                && final(self).last_applied_at == old(self).last_applied_at,
    {
        let apply = match &self.pending {
            Some(m) => m.force || now_ms - self.last_applied_at > self.interval_ms,
            None => false,
        };
        if apply {
            let m = self.pending.take();
            self.last_applied_at = now_ms;
            m
        } else {
            None
        }
    }
}

} // verus!
