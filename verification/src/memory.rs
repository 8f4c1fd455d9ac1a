//! Memory profiling: checkpoints of the memory in use during an operation,
//! and the report over them. The readings come from the caller, which owns
//! the allocator that counts.

use vstd::prelude::*;
use crate::text::{decimal, push_decimal, push_str, string_from_chars};

verus! {

/// A difference of two readings, with its sign.
pub open spec fn signed_decimal(d: int) -> Seq<char> {
    if d < 0 {
        seq!['-'] + decimal((-d) as nat)
    } else {
        decimal(d as nat)
    }
}

/// The line of one checkpoint: its label, its reading and the change since
/// the reading before it.
pub open spec fn checkpoint_line(label: Seq<char>, usage: nat, previous: nat) -> Seq<char> {
    "  "@ + label + ": "@ + decimal(usage) + " bytes (Δ "@ + signed_decimal(usage - previous) + " bytes)\n"@
}

/// The checkpoint lines from the `k`th on, the reading before the `k`th
/// being `previous`.
pub open spec fn checkpoint_lines(cps: Seq<(Seq<char>, nat)>, previous: nat) -> Seq<char>
    decreases cps.len(),
{
    if cps.len() == 0 {
        Seq::empty()
    } else {
        checkpoint_line(cps[0].0, cps[0].1, previous) + checkpoint_lines(cps.drop_first(), cps[0].1)
    }
}

/// The checkpoints by their views.
pub open spec fn checkpoint_views(cps: Seq<(String, usize)>) -> Seq<(Seq<char>, nat)> {
    cps.map_values(|c: (String, usize)| (c.0@, c.1 as nat))
}

/// The full report: the start reading, each checkpoint, and the current
/// reading with the change since the start.
pub open spec fn report_text(start: nat, cps: Seq<(Seq<char>, nat)>, current: nat) -> Seq<char> {
    "Memory Profile Report:\n"@ + "  Start: "@ + decimal(start) + " bytes\n"@
        + checkpoint_lines(cps, start)
        + "  Total: "@ + decimal(current) + " bytes (Δ "@ + signed_decimal(current - start) + " bytes)\n"@
}

/// Memory profiler: the reading at the start and the labelled checkpoints.
#[derive(Debug)]
pub struct MemoryProfiler {
    pub start_usage: usize,
    pub checkpoints: Vec<(String, usize)>,
}

/// Appends `b - a` with its sign.
fn push_signed_difference(v: &mut Vec<char>, a: usize, b: usize)
    ensures
        final(v)@ == old(v)@ + signed_decimal(b - a),
{
    if b < a {
        v.push('-');
        push_decimal(v, a - b);
        assert(final(v)@ =~= old(v)@ + signed_decimal(b - a));
    } else {
        push_decimal(v, b - a);
    }
}

impl MemoryProfiler {
    /// Starts a profile at the reading `start_usage`.
    pub fn new(start_usage: usize) -> (r: Self)
        ensures
            r.start_usage == start_usage,
            r.checkpoints@.len() == 0,
    {
        MemoryProfiler { start_usage, checkpoints: Vec::new() }
    }

    /// Records the reading `usage` under `label`.
    pub fn checkpoint(&mut self, label: &str, usage: usize)
        ensures
            final(self).start_usage == old(self).start_usage,
            checkpoint_views(final(self).checkpoints@)
                == checkpoint_views(old(self).checkpoints@).push((label@, usage as nat)),
    {
        let ghost before = self.checkpoints@;
        self.checkpoints.push((label.to_owned(), usage));
        assert(checkpoint_views(self.checkpoints@) =~= checkpoint_views(before).push((label@, usage as nat)));
    }

    /// The change from the start reading to `current`.
    pub fn delta(&self, current: usize) -> (r: i128)
        ensures
            r == current - self.start_usage,
    {
        current as i128 - self.start_usage as i128
    }

    /// The report up to the reading `current` (see `report_text`).
    pub fn report(&self, current: usize) -> (r: String)
        ensures
            r@ == report_text(self.start_usage as nat, checkpoint_views(self.checkpoints@), current as nat),
    {
        let ghost cps = checkpoint_views(self.checkpoints@);
        let mut out: Vec<char> = Vec::new();
        push_str(&mut out, "Memory Profile Report:\n");
        push_str(&mut out, "  Start: ");
        push_decimal(&mut out, self.start_usage);
        push_str(&mut out, " bytes\n");
        let ghost head = out@;
        let mut last = self.start_usage;
        assert(cps.subrange(0, self.checkpoints@.len() as int) =~= cps);
        let n = self.checkpoints.len();
        let mut k: usize = 0;
        while k < n
            invariant
                n == self.checkpoints@.len(),
                cps == checkpoint_views(self.checkpoints@),
                k <= n,
                last == (if k == 0 { self.start_usage } else { self.checkpoints@[k - 1].1 }),
                out@ + checkpoint_lines(cps.subrange(k as int, n as int), last as nat)
                    == head + checkpoint_lines(cps, self.start_usage as nat),
            decreases n - k,
        {
            let ghost before = out@;
            let label = &self.checkpoints[k].0;
            let usage = self.checkpoints[k].1;
            push_str(&mut out, "  ");
            push_str(&mut out, label.as_str());
            push_str(&mut out, ": ");
            push_decimal(&mut out, usage);
            push_str(&mut out, " bytes (Δ ");
            push_signed_difference(&mut out, last, usage);
            push_str(&mut out, " bytes)\n");
            proof {
                let rest = cps.subrange(k as int, n as int);
                assert(rest[0] == (label@, usage as nat));
                assert(rest.drop_first() =~= cps.subrange(k + 1, n as int));
                assert(out@ =~= before + checkpoint_line(label@, usage as nat, last as nat));
            }
            last = usage;
            k += 1;
        }
        proof {
            assert(cps.subrange(n as int, n as int) =~= Seq::<(Seq<char>, nat)>::empty());
            assert(cps.subrange(0, n as int) =~= cps);
        }
        push_str(&mut out, "  Total: ");
        push_decimal(&mut out, current);
        push_str(&mut out, " bytes (Δ ");
        push_signed_difference(&mut out, self.start_usage, current);
        push_str(&mut out, " bytes)\n");
        string_from_chars(&out)
    }
}

}
