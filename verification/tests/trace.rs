use my_webgpu_app::sim::trace::{trace_begin_frame, trace_drain, trace_emitting, trace_push, TraceState};

/// A clock seed under which the first draw keeps its line.
fn keeping_seed() -> u32 {
    let mut seed = 1u32;
    loop {
        let mut x = seed | 1;
        x ^= x << 13;
        x ^= x >> 17;
        x ^= x << 5;
        if (x >> 8) >= 5872026 {
            return seed;
        }
        seed += 2;
    }
}

#[test]
fn non_emitting_steps_push_nothing() {
    let mut t = TraceState::new();
    trace_begin_frame(&mut t, Some(3));
    assert!(!trace_emitting(&t));
    trace_push(&mut t, "hinge", "x", keeping_seed());
    assert_eq!(trace_drain(&mut t), "");
    assert_eq!(t.rng, 0);
}

#[test]
fn emitting_step_prefixes_lines_with_the_step() {
    let mut t = TraceState::new();
    trace_begin_frame(&mut t, Some(10));
    assert!(trace_emitting(&t));
    t.rng = 0;
    trace_push(&mut t, "solve", "residual 0.5", keeping_seed());
    assert_eq!(trace_drain(&mut t), "[step=10] residual 0.5");
    assert_eq!(trace_drain(&mut t), "");
}

#[test]
fn no_step_emits_unprefixed_lines() {
    let mut t = TraceState::new();
    trace_begin_frame(&mut t, None);
    assert!(trace_emitting(&t));
    trace_push(&mut t, "frame", "hello", keeping_seed());
    assert_eq!(trace_drain(&mut t), "hello");
}

#[test]
fn each_tag_gets_one_line_per_step() {
    let mut t = TraceState::new();
    trace_begin_frame(&mut t, Some(0));
    let mut kept = 0;
    for i in 0..200 {
        let before = t.buf.len();
        trace_push(&mut t, "hinge", &format!("line {i}"), keeping_seed());
        kept += t.buf.len() - before;
    }
    assert_eq!(kept, 1);
    assert!(t.tags.iter().all(|(_, n)| *n <= 1));
    trace_begin_frame(&mut t, Some(5));
    assert!(t.tags.is_empty());
}

#[test]
fn drain_joins_lines_with_newlines() {
    let mut t = TraceState::new();
    trace_begin_frame(&mut t, None);
    let mut tags = 0;
    while t.buf.len() < 3 {
        let tag = format!("tag{tags}");
        let msg = format!("m{}", t.buf.len());
        trace_push(&mut t, &tag, &msg, keeping_seed());
        tags += 1;
    }
    assert_eq!(trace_drain(&mut t), "m0\nm1\nm2");
}

#[test]
fn roughly_a_third_of_lines_are_dropped() {
    let mut t = TraceState::new();
    trace_begin_frame(&mut t, None);
    for i in 0..3000 {
        let tag = format!("t{i}");
        trace_push(&mut t, &tag, "x", 12345);
    }
    let kept = t.buf.len();
    assert!(kept > 1600 && kept < 2300, "kept {kept}");
}
