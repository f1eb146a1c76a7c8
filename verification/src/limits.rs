//! The size limit of a request: its spans and events must be fewer than `i64::MAX`.
use vstd::prelude::*;

use crate::compile::spans_and_events;
use crate::raw::{spans_view, RawSpan, RawSpanView};

verus! {

proof fn lemma_spans_and_events_step(all: Seq<RawSpanView>, i: int)
    requires
        0 <= i < all.len(),
    ensures
        spans_and_events(all.take(i + 1)) == spans_and_events(all.take(i)) + 1 + all[i].events.len(),
{
    assert(all.take(i + 1).drop_last() =~= all.take(i));
    assert(all.take(i + 1).last() == all[i]);
}

/// Whether the spans and events are fewer than `i64::MAX`.
pub fn within_count_limit(spans: &Vec<RawSpan>) -> (r: bool)
    ensures
        r == (spans_and_events(spans_view(spans@)) < i64::MAX),
{
    let ghost all = spans_view(spans@);
    let mut total: u64 = 0;
    let mut i: usize = 0;
    while i < spans.len()
        invariant
            i <= spans@.len(),
            all == spans_view(spans@),
            all.len() == spans@.len(),
            total == spans_and_events(all.take(i as int)),
            total < i64::MAX,
        decreases spans@.len() - i,
    {
        let n = spans[i].events.len() as u64;
        proof {
            lemma_spans_and_events_step(all, i as int);
            assert(all[i as int] == spans@[i as int]@);
            assert(n == all[i as int].events.len());
        }
        if n >= 9223372036854775806u64 - total {
            proof {
                crate::compile::lemma_spans_and_events_prefix(all, i + 1);
            }
            return false;
        }
        total = total + 1 + n;
        i = i + 1;
    }
    proof {
        assert(all.take(i as int) =~= all);
    }
    true
}

} // verus!
