use vstd::prelude::*;
use crate::keys::{new_diff_key, old_diff_key};
use crate::store::map_get;
use crate::subspace::{read_with_height_spec, scan_forward};

verus! {

// A block either writes a key — recording the prior value as the old
// diff and the written one as the new diff — or deletes it, recording
// only the old diff. Per key, the committed blocks therefore leave a
// trace: the heights at which the key changed and the value each change
// set (`None` for a deletion). The lemmas below say that the historic
// read answers every query from that trace alone.

/// One change of one key: the height it happened at and the value it
/// left (`None` when the key was deleted).
pub type TraceEntry = (u64, Option<Seq<u8>>);

/// The changes of one key across a sequence of commits, in height order.
pub type Trace = Seq<TraceEntry>;

/// The change recorded at exactly height `h`, if any.
pub open spec fn entry_at(t: Trace, h: u64) -> Option<Option<Seq<u8>>>
    decreases t.len(),
{
    if t.len() == 0 {
        None
    } else if t.last().0 == h {
        Some(t.last().1)
    } else {
        entry_at(t.drop_last(), h)
    }
}

/// The value the key holds as of height `h`: what its last change at or
/// before `h` left, `None` when it was never written by then or deleted.
pub open spec fn trace_val_at(t: Trace, h: int) -> Option<Seq<u8>>
    decreases t.len(),
{
    if t.len() == 0 {
        None
    } else if t.last().0 <= h {
        t.last().1
    } else {
        trace_val_at(t.drop_last(), h)
    }
}

/// A well-formed trace: changes come in strictly increasing height order,
/// and no change is a deletion of a key that did not exist — a block
/// deleting an absent key records nothing.
pub open spec fn trace_wf(t: Trace) -> bool {
    &&& forall|i: int, j: int| 0 <= i < j < t.len() ==> (#[trigger] t[i]).0 < (#[trigger] t[j]).0
    &&& forall|i: int|
        0 <= i < t.len() ==> ((#[trigger] t[i]).1 is Some || trace_val_at(t, t[i].0 - 1) is Some)
}

/// The diffs family holds exactly the trace of the key: a new diff where
/// a change set a value, and an old diff holding the value the change
/// replaced.
pub open spec fn diffs_match(d: Map<Seq<char>, Seq<u8>>, k: Seq<char>, t: Trace) -> bool {
    &&& forall|h: u64|
        #![trigger new_diff_key(h as nat, k)]
        map_get(d, new_diff_key(h as nat, k)) == (match entry_at(t, h) {
            Some(Some(v)) => Some(v),
            _ => None,
        })
    &&& forall|h: u64|
        #![trigger old_diff_key(h as nat, k)]
        map_get(d, old_diff_key(h as nat, k)) == (match entry_at(t, h) {
            Some(_) => trace_val_at(t, h - 1),
            None => None,
        })
}

/// The subspace holds the key's latest traced value.
pub open spec fn subspace_matches(
    s: Map<Seq<char>, Seq<u8>>,
    k: Seq<char>,
    t: Trace,
    last: u64,
) -> bool {
    map_get(s, k) == trace_val_at(t, last as int)
}

/// All changes happened at or before `last`.
pub open spec fn trace_bounded(t: Trace, last: u64) -> bool {
    forall|i: int| 0 <= i < t.len() ==> (#[trigger] t[i]).0 <= last
}

/// A span of heights with no change leaves the value alone.
pub proof fn lemma_trace_const(t: Trace, a: int, b: int)
    requires
        a <= b,
        forall|i: int| 0 <= i < t.len() ==> !(a < (#[trigger] t[i]).0 <= b),
    ensures
        trace_val_at(t, b) == trace_val_at(t, a),
    decreases t.len(),
{
    if t.len() > 0 {
        assert(t[t.len() - 1] == t.last());
        lemma_trace_const(t.drop_last(), a, b);
    }
}

/// A change at `h` is an entry of the trace, and conversely.
pub proof fn lemma_entry_at_some(t: Trace, h: u64)
    requires
        trace_wf(t),
    ensures
        entry_at(t, h) matches Some(nv) ==> exists|i: int|
            0 <= i < t.len() && (#[trigger] t[i]) == (h, nv),
        (exists|i: int| 0 <= i < t.len() && (#[trigger] t[i]).0 == h) ==> entry_at(t, h) is Some,
    decreases t.len(),
{
    if t.len() > 0 {
        assert(t[t.len() - 1] == t.last());
        assert(trace_wf(t.drop_last())) by {
            assert(forall|i: int|
                0 <= i < t.drop_last().len() ==> #[trigger] t.drop_last()[i] == t[i]);
            assert(forall|i: int|
                0 <= i < t.drop_last().len() ==> trace_val_at(t.drop_last(), t.drop_last()[i].0 - 1)
                    == trace_val_at(t, t.drop_last()[i].0 - 1)) by {
                assert forall|i: int|
                    0 <= i < t.drop_last().len() implies trace_val_at(
                    t.drop_last(),
                    t.drop_last()[i].0 - 1,
                ) == trace_val_at(t, t.drop_last()[i].0 - 1) by {
                    assert(t.last().0 > t.drop_last()[i].0);
                }
            }
        }
        lemma_entry_at_some(t.drop_last(), h);
        if t.last().0 != h {
            if entry_at(t, h) is Some {
                let nv = entry_at(t, h)->Some_0;
                let i = choose|i: int|
                    0 <= i < t.drop_last().len() && (#[trigger] t.drop_last()[i]) == (h, nv);
                assert(t[i] == (h, nv));
            }
            if exists|i: int| 0 <= i < t.len() && (#[trigger] t[i]).0 == h {
                let i = choose|i: int| 0 <= i < t.len() && (#[trigger] t[i]).0 == h;
                assert(t.drop_last()[i].0 == h);
            }
        }
    }
}

/// The value as of `h` when a change happened at exactly `h` is that
/// change's value.
pub proof fn lemma_val_at_entry(t: Trace, h: u64)
    requires
        trace_wf(t),
        entry_at(t, h) is Some,
    ensures
        trace_val_at(t, h as int) == entry_at(t, h)->Some_0,
    decreases t.len(),
{
    if t.len() > 0 {
        assert(t[t.len() - 1] == t.last());
        if t.last().0 == h {
        } else if t.last().0 < h {
            // the entry at h would have to come after the last change
            lemma_entry_at_some(t, h);
            let i = choose|i: int|
                0 <= i < t.len() && (#[trigger] t[i]) == (h, entry_at(t, h)->Some_0);
            assert(t[i].0 > t.last().0);
            assert(i < t.len() - 1 ==> t[i].0 < t[t.len() - 1].0);
            assert(false);
        } else {
            assert(trace_wf(t.drop_last())) by {
                assert(forall|i: int|
                    0 <= i < t.drop_last().len() ==> #[trigger] t.drop_last()[i] == t[i]);
                assert forall|i: int|
                    0 <= i < t.drop_last().len() implies (t.drop_last()[i].1 is Some
                    || trace_val_at(t.drop_last(), t.drop_last()[i].0 - 1) is Some) by {
                    assert(t.last().0 > t.drop_last()[i].0);
                    assert(trace_val_at(t.drop_last(), t.drop_last()[i].0 - 1) == trace_val_at(
                        t,
                        t[i].0 - 1,
                    ));
                }
            }
            lemma_val_at_entry(t.drop_last(), h);
        }
    }
}

/// The forward scan finds the traced value: starting above `hi`, the
/// first surviving old diff, the first new diff, or the subspace all
/// agree with the value the trace gives as of `hi`.
proof fn lemma_scan(
    d: Map<Seq<char>, Seq<u8>>,
    s: Map<Seq<char>, Seq<u8>>,
    k: Seq<char>,
    t: Trace,
    h: u64,
    hi: int,
    last: u64,
)
    requires
        trace_wf(t),
        diffs_match(d, k, t),
        subspace_matches(s, k, t, last),
        trace_bounded(t, last),
        hi < h,
        hi <= last,
        forall|i: int| 0 <= i < t.len() ==> !(hi < (#[trigger] t[i]).0 < h),
    ensures
        scan_forward(d, s, k, h as nat, last as nat) == trace_val_at(t, hi),
    decreases (if h <= last {
        last + 1 - h
    } else {
        0
    }),
{
    lemma_entry_at_some(t, h);
    match entry_at(t, h) {
        Some(nv) => {
            // the first change after `hi` sits at `h`
            assert(map_get(d, old_diff_key(h as nat, k)) == trace_val_at(t, h - 1));
            lemma_trace_const(t, hi, h - 1);
            match trace_val_at(t, h - 1) {
                Some(p) => {
                    assert(d.contains_key(old_diff_key(h as nat, k)));
                    assert(scan_forward(d, s, k, h as nat, last as nat) == Some(p));
                },
                None => {
                    assert(!d.contains_key(old_diff_key(h as nat, k)));
                    // the change cannot be a deletion of an absent key
                    let i = choose|i: int|
                        0 <= i < t.len() && (#[trigger] t[i]) == (h, nv);
                    assert(nv is Some) by {
                        assert(trace_val_at(t, t[i].0 - 1) is None);
                    }
                    assert(map_get(d, new_diff_key(h as nat, k)) == Some(nv->Some_0));
                    assert(scan_forward(d, s, k, h as nat, last as nat) is None);
                },
            }
        },
        None => {
            assert(!d.contains_key(old_diff_key(h as nat, k)));
            assert(!d.contains_key(new_diff_key(h as nat, k)));
            if h >= last {
                // no change between `hi` and the end: the subspace answers
                assert(forall|i: int|
                    0 <= i < t.len() ==> !(hi < (#[trigger] t[i]).0 <= last as int)) by {
                    lemma_entry_at_some(t, h);
                    if exists|i: int|
                        0 <= i < t.len() && hi < (#[trigger] t[i]).0 <= last as int {
                        let i = choose|i: int|
                            0 <= i < t.len() && hi < (#[trigger] t[i]).0 <= last as int;
                        assert(t[i].0 == h);
                        assert(entry_at(t, h) is Some);
                    }
                }
                lemma_trace_const(t, hi, last as int);
                assert(scan_forward(d, s, k, h as nat, last as nat) == map_get(s, k));
            } else {
                assert(forall|i: int|
                    0 <= i < t.len() ==> !(hi < (#[trigger] t[i]).0 < h + 1)) by {
                    lemma_entry_at_some(t, h);
                }
                lemma_scan(d, s, k, t, (h + 1) as u64, hi, last);
            }
        },
    }
}

/// The historic read is exact: for every key whose diffs persist and
/// every queried height up to the last one, it answers the last value
/// the commits wrote to the key at or before that height — and `None`
/// when the key was deleted by then or never written.
pub proof fn lemma_read_with_height_correct(
    d: Map<Seq<char>, Seq<u8>>,
    s: Map<Seq<char>, Seq<u8>>,
    k: Seq<char>,
    t: Trace,
    height: u64,
    last: u64,
)
    requires
        trace_wf(t),
        diffs_match(d, k, t),
        subspace_matches(s, k, t, last),
        trace_bounded(t, last),
        height <= last,
        height < u64::MAX,
    ensures
        read_with_height_spec(d, s, k, height as nat, last as nat) == trace_val_at(
            t,
            height as int,
        ),
{
    lemma_entry_at_some(t, height);
    match entry_at(t, height) {
        Some(nv) => {
            match nv {
                Some(v) => {
                    assert(map_get(d, new_diff_key(height as nat, k)) == Some(v));
                    lemma_val_at_entry(t, height);
                },
                None => {
                    assert(!d.contains_key(new_diff_key(height as nat, k)));
                    assert(map_get(d, old_diff_key(height as nat, k)) == trace_val_at(
                        t,
                        height - 1,
                    ));
                    let i = choose|i: int|
                        0 <= i < t.len() && (#[trigger] t[i]) == (height, nv);
                    assert(trace_val_at(t, t[i].0 - 1) is Some);
                    assert(d.contains_key(old_diff_key(height as nat, k)));
                    lemma_val_at_entry(t, height);
                },
            }
        },
        None => {
            assert(!d.contains_key(new_diff_key(height as nat, k)));
            assert(!d.contains_key(old_diff_key(height as nat, k)));
            lemma_scan(d, s, k, t, (height + 1) as u64, height as int, last);
        },
    }
}

/// Reading at the last height itself gives the live subspace value: the
/// historic read and the plain read agree on every key as soon as the
/// store sits at a committed block.
pub proof fn lemma_read_at_last_is_current(
    d: Map<Seq<char>, Seq<u8>>,
    s: Map<Seq<char>, Seq<u8>>,
    k: Seq<char>,
    t: Trace,
    last: u64,
)
    requires
        trace_wf(t),
        diffs_match(d, k, t),
        subspace_matches(s, k, t, last),
        trace_bounded(t, last),
        last < u64::MAX,
    ensures
        read_with_height_spec(d, s, k, last as nat, last as nat) == map_get(s, k),
{
    lemma_read_with_height_correct(d, s, k, t, last, last);
}

} // verus!
