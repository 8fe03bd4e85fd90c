//! Verbose per-solve trace channel for the paper sim.
//!
//! Runs on a much tighter interval than the console logger and feeds the
//! on-page sim console. Each call site passes a `tag`; at most
//! `TRACE_MAX_PER_STEP` lines per tag per emitting step get through. Lines
//! are buffered in a bounded ring and handed out in one batch per frame by
//! `trace_drain`. The caller owns the state (one per thread) and supplies
//! the step number and a clock reading for seeding the drop jitter.

use std::collections::VecDeque;
use vstd::prelude::*;

use crate::text::{spec_step_line, step_line};

verus! {

/// Emit trace lines only on every Nth sim step.
pub const TRACE_INTERVAL: usize = 5;

/// Per-tag cap on lines kept per emitting step.
pub const TRACE_MAX_PER_STEP: usize = 1;

/// Hard cap on buffered lines; the oldest are dropped past this.
pub const MAX_BUFFER: usize = 8192;

/// Randomly drop otherwise-eligible lines to give the scroll some jitter.
pub const TRACE_RANDOMIZE: bool = true;

/// A line is dropped when the top 24 bits of the generator's output, read as
/// a fraction of `2^24`, fall below the drop probability `0.35f32`; that is
/// when they are below `0.35f32 * 2^24 = 5872025.5`, i.e. below this.
pub const TRACE_DROP_THRESHOLD: u32 = 5872026;

/// Trace buffer and per-step budgets.
pub struct TraceState {
    /// Buffered lines, oldest first.
    pub buf: VecDeque<String>,
    /// Lines taken this step, per tag.
    pub tags: Vec<(String, usize)>,
    /// The current sim step, if the logger has one.
    pub step: Option<usize>,
    /// Whether this step emits trace lines.
    pub emit: bool,
    /// State of the xorshift generator; 0 until first seeded.
    pub rng: u32,
}

/// One xorshift32 step.
pub open spec fn xorshift32(x: u32) -> u32 {
    let a = x ^ (x << 13u32);
    let b = a ^ (a >> 17u32);
    b ^ (b << 5u32)
}

/// The generator state after one draw: seeded from the clock (forced odd)
/// when still 0, then advanced one step.
pub open spec fn next_rng(rng: u32, clock_bits: u32) -> u32 {
    xorshift32(if rng == 0 { clock_bits | 1u32 } else { rng })
}

/// A draw drops its line.
pub open spec fn dropped(x: u32) -> bool {
    TRACE_RANDOMIZE && (x >> 8u32) < TRACE_DROP_THRESHOLD
}

/// Views of the buffered lines.
pub open spec fn lines(t: &TraceState) -> Seq<Seq<char>> {
    t.buf@.map_values(|s: String| s@)
}

/// Position of `tag` in the budget list, if present.
pub open spec fn has_tag_at(tags: Seq<(String, usize)>, tag: Seq<char>, i: int) -> bool {
    0 <= i < tags.len() && tags[i].0@ == tag
}

/// The state is usable: the buffer is within its cap, budget tags are
/// distinct and no tag has taken more than its share.
pub open spec fn trace_wf(t: &TraceState) -> bool {
    &&& t.buf@.len() <= MAX_BUFFER
    &&& forall|i: int, j: int| 0 <= i < j < t.tags@.len() ==> #[trigger] t.tags@[i].0@ != #[trigger] t.tags@[j].0@
    &&& forall|i: int| 0 <= i < t.tags@.len() ==> #[trigger] t.tags@[i].1 <= TRACE_MAX_PER_STEP
}

/// The line pushed for `msg`: prefixed with the current step when there is one.
pub open spec fn trace_line(step: Option<usize>, msg: Seq<char>) -> Seq<char> {
    match step {
        Some(s) => spec_step_line("[step="@, s as nat, msg),
        None => msg,
    }
}

/// Lines of `msgs` joined by newlines.
pub open spec fn join_lines(msgs: Seq<Seq<char>>) -> Seq<char>
    decreases msgs.len(),
{
    if msgs.len() == 0 {
        Seq::empty()
    } else if msgs.len() == 1 {
        msgs[0]
    } else {
        join_lines(msgs.drop_last()) + "\n"@ + msgs.last()
    }
}

impl TraceState {
    pub fn new() -> (r: Self)
        ensures
            trace_wf(&r),
            r.buf@.len() == 0,
            r.tags@.len() == 0,
            r.step is None,
            !r.emit,
            r.rng == 0,
    {
        TraceState { buf: VecDeque::new(), tags: Vec::new(), step: None, emit: false, rng: 0 }
    }
}

/// Start a new sim step: reset the per-tag budgets, keep the step number for
/// line prefixes, and decide whether this step emits at all.
pub fn trace_begin_frame(t: &mut TraceState, step: Option<usize>)
    requires
        trace_wf(old(t)),
    ensures
        trace_wf(final(t)),
        final(t).tags@.len() == 0,
        final(t).step == step,
        final(t).emit == match step {
            Some(s) => s % TRACE_INTERVAL == 0,
            None => true,
        },
        final(t).buf@ == old(t).buf@,
        final(t).rng == old(t).rng,
{
    t.tags.clear();
    t.step = step;
    t.emit = match step {
        Some(s) => s % TRACE_INTERVAL == 0,
        None => true,
    };
}

/// Whether the current step emits trace lines.
pub fn trace_emitting(t: &TraceState) -> (r: bool)
    ensures
        r == t.emit,
{
    t.emit
}

/// One draw from the generator.
fn draw(t: &mut TraceState, clock_bits: u32) -> (x: u32)
    ensures
        x == next_rng(old(t).rng, clock_bits),
        final(t).rng == x,
        final(t).buf == old(t).buf,
        final(t).tags == old(t).tags,
        final(t).step == old(t).step,
        final(t).emit == old(t).emit,
{
    let mut x = t.rng;
    if x == 0 {
        x = clock_bits | 1;
    }
    x = x ^ (x << 13u32);
    x = x ^ (x >> 17u32);
    x = x ^ (x << 5u32);
    t.rng = x;
    x
}

fn same_tag(a: &String, b: &str) -> (r: bool)
    ensures
        r == (a@ == b@),
{
    let b = b.to_owned();
    *a == b
}

/// Where `tag` sits in the budget list, if it is there.
fn find_tag(tags: &Vec<(String, usize)>, tag: &str) -> (r: Option<usize>)
    ensures
        r matches Some(i) ==> has_tag_at(tags@, tag@, i as int),
        r is None ==> forall|i: int| 0 <= i < tags@.len() ==> !has_tag_at(tags@, tag@, i),
{
    let mut i: usize = 0;
    while i < tags.len()
        invariant
            0 <= i <= tags.len(),
            forall|j: int| 0 <= j < i ==> !has_tag_at(tags@, tag@, j),
        decreases tags.len() - i,
    {
        if same_tag(&tags[i].0, tag) {
            return Some(i);
        }
        i = i + 1;
    }
    None
}

/// The buffer after appending `line`, dropping the oldest past the cap.
pub open spec fn bounded_push(buf: Seq<Seq<char>>, line: Seq<char>) -> Seq<Seq<char>> {
    if buf.len() + 1 > MAX_BUFFER { buf.push(line).skip(1) } else { buf.push(line) }
}

/// `tag` has already taken its share of lines this step.
pub open spec fn budget_spent(tags: Seq<(String, usize)>, tag: Seq<char>) -> bool {
    exists|i: int| has_tag_at(tags, tag, i) && #[trigger] tags[i].1 >= TRACE_MAX_PER_STEP
}

/// The budget list after `tag` takes one more line.
pub open spec fn tags_after_take(old_tags: Seq<(String, usize)>, new_tags: Seq<(String, usize)>, tag: Seq<char>) -> bool {
    if exists|i: int| #[trigger] has_tag_at(old_tags, tag, i) {
        let i = choose|i: int| #[trigger] has_tag_at(old_tags, tag, i);
        &&& new_tags.len() == old_tags.len()
        &&& new_tags[i].0@ == tag
        &&& new_tags[i].1 == old_tags[i].1 + 1
        &&& forall|j: int| 0 <= j < old_tags.len() && j != i ==> #[trigger] new_tags[j] == old_tags[j]
    } else {
        &&& new_tags.len() == old_tags.len() + 1
        &&& new_tags[old_tags.len() as int].0@ == tag
        &&& new_tags[old_tags.len() as int].1 == 1
        &&& forall|j: int| 0 <= j < old_tags.len() ==> #[trigger] new_tags[j] == old_tags[j]
    }
}

/// Push one trace line under `tag`, prefixed with the current sim step.
/// No-ops on non-emitting steps; on emitting steps one generator draw may
/// drop the line, and a tag that has spent its budget this step adds nothing.
/// `clock_bits` seeds the generator on its first draw.
pub fn trace_push(t: &mut TraceState, tag: &str, msg: &str, clock_bits: u32)
    requires
        trace_wf(old(t)),
    ensures
        trace_wf(final(t)),
        final(t).step == old(t).step,
        final(t).emit == old(t).emit,
        !old(t).emit ==> *final(t) == *old(t),
        old(t).emit ==> final(t).rng == next_rng(old(t).rng, clock_bits),
        old(t).emit && (dropped(next_rng(old(t).rng, clock_bits)) || budget_spent(old(t).tags@, tag@)) ==> {
            &&& final(t).buf@ == old(t).buf@
            &&& final(t).tags@ == old(t).tags@
        },
        old(t).emit && !dropped(next_rng(old(t).rng, clock_bits)) && !budget_spent(old(t).tags@, tag@) ==> {
            &&& lines(final(t)) == bounded_push(lines(old(t)), trace_line(old(t).step, msg@))
            &&& tags_after_take(old(t).tags@, final(t).tags@, tag@)
        },
{
    if !t.emit {
        return;
    }
    let x = draw(t, clock_bits);
    if TRACE_RANDOMIZE && (x >> 8u32) < TRACE_DROP_THRESHOLD {
        return;
    }
    let ghost tags0 = t.tags@;
    let found = find_tag(&t.tags, tag);
    let idx = match found {
        Some(i) => i,
        None => {
            t.tags.push((String::from_str(tag), 0));
            proof {
                assert forall|i: int, j: int| 0 <= i < j < t.tags@.len() implies #[trigger] t.tags@[i].0@ != #[trigger] t.tags@[j].0@ by {
                    if j == tags0.len() {
                        assert(!has_tag_at(tags0, tag@, i));
                    }
                }
            }
            t.tags.len() - 1
        },
    };
    let count = t.tags[idx].1;
    if count >= TRACE_MAX_PER_STEP {
        proof {
            assert(found is Some);
            assert(budget_spent(tags0, tag@));
        }
        return;
    }
    proof {
        if budget_spent(tags0, tag@) {
            let i = choose|i: int| has_tag_at(tags0, tag@, i) && #[trigger] tags0[i].1 >= TRACE_MAX_PER_STEP;
            if found is Some {
                assert(i == idx) by {
                    if i != idx {
                        assert(tags0[i].0@ != tags0[idx as int].0@);
                    }
                }
            }
        }
    }
    let name = t.tags[idx].0.clone();
    t.tags.set(idx, (name, count + 1));
    proof {
        if found is Some {
            assert(has_tag_at(tags0, tag@, idx as int));
            let i = choose|i: int| #[trigger] has_tag_at(tags0, tag@, i);
            assert(i == idx) by {
                if i != idx {
                    assert(tags0[i].0@ != tags0[idx as int].0@);
                }
            }
        } else {
            assert(!(exists|i: int| #[trigger] has_tag_at(tags0, tag@, i)));
        }
    }
    let line = match t.step {
        Some(s) => step_line("[step=", s, msg),
        None => String::from_str(msg),
    };
    let ghost buf0 = t.buf@;
    t.buf.push_back(line);
    proof {
        assert(t.buf@.map_values(|s: String| s@) =~= buf0.map_values(|s: String| s@).push(trace_line(t.step, msg@)));
    }
    if t.buf.len() > MAX_BUFFER {
        let ghost buf1 = t.buf@;
        let _ = t.buf.pop_front();
        proof {
            assert(t.buf@ == buf1.skip(1));
            assert(t.buf@.map_values(|s: String| s@) =~= buf1.map_values(|s: String| s@).skip(1));
        }
    }
}

/// Drain every buffered line, joined by newlines; empty when nothing is queued.
pub fn trace_drain(t: &mut TraceState) -> (r: String)
    requires
        trace_wf(old(t)),
    ensures
        r@ == join_lines(lines(old(t))),
        trace_wf(final(t)),
        final(t).buf@.len() == 0,
        final(t).tags == old(t).tags,
        final(t).step == old(t).step,
        final(t).emit == old(t).emit,
        final(t).rng == old(t).rng,
{
    let ghost ls = lines(t);
    let n = t.buf.len();
    let mut out = String::new();
    let mut i: usize = 0;
    while i < n
        invariant
            n == t.buf@.len(),
            ls == lines(t),
            0 <= i <= n,
            out@ == join_lines(ls.take(i as int)),
        decreases n - i,
    {
        if i > 0 {
            out.append("\n");
        }
        out.append(t.buf[i].as_str());
        proof {
            assert(ls.take(i + 1).drop_last() == ls.take(i as int));
            assert(ls.take(i + 1).last() == t.buf@[i as int]@);
            if i == 0 {
                assert(ls.take(1)[0] == t.buf@[0]@);
            }
        }
        i = i + 1;
    }
    proof {
        assert(ls.take(n as int) == ls);
    }
    t.buf.clear();
    out
}

} // verus!
