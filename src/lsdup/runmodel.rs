use crate::lsdup::filevisitor::{
    admitted, initial_model, record_spec, visit_spec, FileMeta, VisitorModel,
};
use crate::lsdup::lenhash::Identity;
use vstd::prelude::*;

verus! {

// A run, as mathematics: the files fed to the visitor in order, each with
// its metadata, and what hashing gives for each path (`None` where hashing
// fails). After each visit every path handed out is hashed and recorded.

/// Records the hashed paths in order; a path whose hashing failed is dropped.
pub open spec fn record_all<P>(
    m: VisitorModel<P>,
    reqs: Seq<P>,
    h: spec_fn(P) -> Option<Identity>,
) -> VisitorModel<P>
    decreases reqs.len(),
{
    if reqs.len() == 0 {
        m
    } else {
        let m1 = record_all(m, reqs.drop_last(), h);
        match h(reqs.last()) {
            Some(id) => record_spec(m1, reqs.last(), id),
            None => m1,
        }
    }
}

/// One file of a run: it is visited, then what the visit asked for is hashed
/// and recorded.
pub open spec fn step<P>(
    m: VisitorModel<P>,
    e: (P, FileMeta),
    h: spec_fn(P) -> Option<Identity>,
) -> VisitorModel<P> {
    let (m1, reqs) = visit_spec(m, e.0, e.1);
    record_all(m1, reqs, h)
}

/// The state after a run over `events`.
pub open spec fn run_model<P>(
    events: Seq<(P, FileMeta)>,
    h: spec_fn(P) -> Option<Identity>,
) -> VisitorModel<P>
    decreases events.len(),
{
    if events.len() == 0 {
        initial_model()
    } else {
        step(run_model(events.drop_last(), h), events.last(), h)
    }
}

/// The state just before the `i`-th file is visited.
pub open spec fn state_before<P>(
    events: Seq<(P, FileMeta)>,
    h: spec_fn(P) -> Option<Identity>,
    i: int,
) -> VisitorModel<P> {
    run_model(events.take(i), h)
}

/// Whether the `i`-th file was taken into account.
pub open spec fn admitted_at<P>(
    events: Seq<(P, FileMeta)>,
    h: spec_fn(P) -> Option<Identity>,
    i: int,
) -> bool {
    admitted(state_before(events, h, i), events[i].1)
}

/// The paths handed out for hashing when the `i`-th file was visited.
pub open spec fn requests_at<P>(
    events: Seq<(P, FileMeta)>,
    h: spec_fn(P) -> Option<Identity>,
    i: int,
) -> Seq<P> {
    visit_spec(state_before(events, h, i), events[i].0, events[i].1).1
}

/// Whether `p` stands in the group of its identity, where hashing it succeeds.
pub open spec fn recorded<P>(m: VisitorModel<P>, h: spec_fn(P) -> Option<Identity>, p: P) -> bool {
    match h(p) {
        Some(id) => m.groups.contains_key(id) && m.groups[id].contains(p),
        None => true,
    }
}

proof fn lemma_record_all_frame<P>(
    m: VisitorModel<P>,
    reqs: Seq<P>,
    h: spec_fn(P) -> Option<Identity>,
)
    ensures
        record_all(m, reqs, h).slots == m.slots,
        record_all(m, reqs, h).linked == m.linked,
        forall|p: P| recorded(m, h, p) ==> #[trigger] recorded(record_all(m, reqs, h), h, p),
        forall|k: int| 0 <= k < reqs.len() ==> recorded(record_all(m, reqs, h), h, #[trigger] reqs[k]),
    decreases reqs.len(),
{
    if reqs.len() > 0 {
        let m1 = record_all(m, reqs.drop_last(), h);
        lemma_record_all_frame(m, reqs.drop_last(), h);
        let x = reqs.last();
        match h(x) {
            Some(id) => {
                let m2 = record_spec(m1, x, id);
                assert forall|p: P| recorded(m1, h, p) implies #[trigger] recorded(m2, h, p) by {
                    if let Some(q) = h(p) {
                        if q == id {
                            assert(m2.groups[id][m1.groups[id].index_of(p)] == p);
                        }
                    }
                }
                assert(m2.groups[id][m2.groups[id].len() - 1] == x);
                assert forall|k: int| 0 <= k < reqs.len() implies recorded(m2, h, #[trigger] reqs[k]) by {
                    if k < reqs.len() - 1 {
                        assert(reqs.drop_last()[k] == reqs[k]);
                    }
                }
            },
            None => {
                assert forall|k: int| 0 <= k < reqs.len() implies recorded(m1, h, #[trigger] reqs[k]) by {
                    if k < reqs.len() - 1 {
                        assert(reqs.drop_last()[k] == reqs[k]);
                    }
                }
            },
        }
    }
}

proof fn lemma_run_step<P>(events: Seq<(P, FileMeta)>, h: spec_fn(P) -> Option<Identity>, k: int)
    requires
        0 <= k < events.len(),
    ensures
        run_model(events.take(k + 1), h) == step(state_before(events, h, k), events[k], h),
{
    assert(events.take(k + 1).drop_last() =~= events.take(k));
}

/// Facts on the slots after the first `k` files: each slot was opened by a
/// file of its length, and a waiting path is the path of such a file.
spec fn slots_from_files<P>(events: Seq<(P, FileMeta)>, h: spec_fn(P) -> Option<Identity>, k: int) -> bool {
    let m = state_before(events, h, k);
    &&& forall|len: u64|
        #[trigger] m.slots.contains_key(len) ==> exists|j: int|
            0 <= j < k && (#[trigger] events[j]).1.len == len
    &&& forall|len: u64|
        #[trigger] m.slots.contains_key(len) && m.slots[len] is Some ==> exists|j: int|
            0 <= j < k && (#[trigger] events[j]).1.len == len && events[j].0 == m.slots[len]->0
}

proof fn lemma_slots_from_files<P>(events: Seq<(P, FileMeta)>, h: spec_fn(P) -> Option<Identity>, k: int)
    requires
        0 <= k <= events.len(),
    ensures
        slots_from_files(events, h, k),
    decreases k,
{
    if k == 0 {
        assert(events.take(0) =~= Seq::<(P, FileMeta)>::empty());
    } else {
        let i = k - 1;
        lemma_slots_from_files(events, h, i);
        lemma_run_step(events, h, i);
        let m = state_before(events, h, i);
        let (m1, reqs) = visit_spec(m, events[i].0, events[i].1);
        lemma_record_all_frame(m1, reqs, h);
        let m2 = state_before(events, h, k);
        assert(m2.slots == m1.slots);
        assert forall|len: u64| #[trigger] m2.slots.contains_key(len) implies exists|j: int|
            0 <= j < k && (#[trigger] events[j]).1.len == len by {
            if len != events[i].1.len {
                assert(m.slots.contains_key(len));
            } else {
                assert(events[i].1.len == len);
            }
        }
        assert forall|len: u64| #[trigger] m2.slots.contains_key(len) && m2.slots[len] is Some implies exists|j: int|
            0 <= j < k && (#[trigger] events[j]).1.len == len && events[j].0 == m2.slots[len]->0 by {
            if len != events[i].1.len {
                assert(m.slots.contains_key(len));
            } else if admitted(m, events[i].1) && !m.slots.contains_key(len) {
                assert(events[i].1.len == len);
            } else {
                assert(m.slots.contains_key(len));
            }
        }
    }
}

/// A file whose length no other file of the run has is never handed out for
/// hashing. (Paths are distinct, as a directory walk yields them.)
pub proof fn lemma_unique_length_never_hashed<P>(
    events: Seq<(P, FileMeta)>,
    h: spec_fn(P) -> Option<Identity>,
    i: int,
    t: int,
)
    requires
        0 <= i < events.len(),
        0 <= t < events.len(),
        forall|j: int| 0 <= j < events.len() && j != i ==> (#[trigger] events[j]).1.len != events[i].1.len,
        forall|j: int| 0 <= j < events.len() && j != i ==> (#[trigger] events[j]).0 != events[i].0,
    ensures
        !requests_at(events, h, t).contains(events[i].0),
{
    lemma_slots_from_files(events, h, t);
    let m = state_before(events, h, t);
    let meta = events[t].1;
    let reqs = requests_at(events, h, t);
    if admitted(m, meta) && m.slots.contains_key(meta.len) {
        if t == i {
            let j = choose|j: int| 0 <= j < t && (#[trigger] events[j]).1.len == meta.len;
            assert(events[j].1.len == meta.len);
        } else {
            if let Some(first) = m.slots[meta.len] {
                let j = choose|j: int|
                    0 <= j < t && (#[trigger] events[j]).1.len == meta.len && events[j].0 == first;
                assert(reqs =~= seq![first, events[t].0]);
                if j == i {
                    assert(events[t].1.len == events[i].1.len);
                }
                assert(reqs[0] != events[i].0 && reqs[1] != events[i].0);
            } else {
                assert(reqs =~= seq![events[t].0]);
                assert(reqs[0] != events[i].0);
            }
        }
    }
}

/// What holds of the files already visited, for grouping: each counted file
/// still waits in the slot of its length or stands in its group, and once
/// two files of a length were counted its slot waits for nothing.
spec fn grouping_holds<P>(events: Seq<(P, FileMeta)>, h: spec_fn(P) -> Option<Identity>, k: int) -> bool {
    let m = state_before(events, h, k);
    &&& forall|e: int|
        0 <= e < k && #[trigger] admitted_at(events, h, e) ==> {
            &&& m.slots.contains_key(events[e].1.len)
            &&& (m.slots[events[e].1.len] == Some(events[e].0) || recorded(m, h, events[e].0))
        }
    &&& forall|e1: int, e2: int|
        0 <= e1 < e2 < k && #[trigger] admitted_at(events, h, e1) && #[trigger] admitted_at(
            events,
            h,
            e2,
        ) && events[e1].1.len == events[e2].1.len ==> m.slots[events[e1].1.len] is None
}

proof fn lemma_grouping_holds<P>(events: Seq<(P, FileMeta)>, h: spec_fn(P) -> Option<Identity>, k: int)
    requires
        0 <= k <= events.len(),
    ensures
        grouping_holds(events, h, k),
    decreases k,
{
    if k > 0 {
        let i = k - 1;
        lemma_grouping_holds(events, h, i);
        lemma_run_step(events, h, i);
        let m = state_before(events, h, i);
        let meta = events[i].1;
        let p = events[i].0;
        let len = meta.len;
        let (m1, reqs) = visit_spec(m, p, meta);
        lemma_record_all_frame(m1, reqs, h);
        let m2 = state_before(events, h, k);
        assert(m1.groups == m.groups);
        assert forall|q: P| recorded(m, h, q) implies #[trigger] recorded(m2, h, q) by {
            assert(recorded(m1, h, q));
        }
        if admitted(m, meta) {
            if m.slots.contains_key(len) {
                assert(reqs[reqs.len() - 1] == p);
                if let Some(first) = m.slots[len] {
                    assert(reqs[0] == first);
                }
            }
        }
        assert forall|e: int| 0 <= e < k && #[trigger] admitted_at(events, h, e) implies {
            &&& m2.slots.contains_key(events[e].1.len)
            &&& (m2.slots[events[e].1.len] == Some(events[e].0) || recorded(m2, h, events[e].0))
        } by {
            if e < i {
                assert(recorded(m, h, events[e].0) ==> recorded(m2, h, events[e].0));
            }
        }
        assert forall|e1: int, e2: int|
            0 <= e1 < e2 < k && #[trigger] admitted_at(events, h, e1) && #[trigger] admitted_at(
                events,
                h,
                e2,
            ) && events[e1].1.len == events[e2].1.len implies m2.slots[events[e1].1.len] is None by {
            if e2 == i {
                assert(m.slots.contains_key(len));
            }
        }
    } else {
        assert(events.take(0) =~= Seq::<(P, FileMeta)>::empty());
    }
}

/// Two counted files of one length whose contents hash to the same identity
/// both stand in that identity's group at the end of the run.
pub proof fn lemma_identical_files_grouped<P>(
    events: Seq<(P, FileMeta)>,
    h: spec_fn(P) -> Option<Identity>,
    i: int,
    j: int,
    id: Identity,
)
    requires
        0 <= i < events.len(),
        0 <= j < events.len(),
        i != j,
        admitted_at(events, h, i),
        admitted_at(events, h, j),
        events[i].1.len == events[j].1.len,
        h(events[i].0) == Some(id),
        h(events[j].0) == Some(id),
    ensures
        run_model(events, h).groups.contains_key(id),
        run_model(events, h).groups[id].contains(events[i].0),
        run_model(events, h).groups[id].contains(events[j].0),
{
    let n = events.len() as int;
    lemma_grouping_holds(events, h, n);
    assert(events.take(n) =~= events);
    let m = run_model(events, h);
    if i < j {
        assert(m.slots[events[i].1.len] is None);
    } else {
        assert(m.slots[events[j].1.len] is None);
    }
    assert(recorded(m, h, events[i].0));
    assert(recorded(m, h, events[j].0));
}

/// The hard-linked identities remembered after the first `k` files: those of
/// the counted hard-linked files.
spec fn links_remembered<P>(events: Seq<(P, FileMeta)>, h: spec_fn(P) -> Option<Identity>, k: int) -> bool {
    forall|e: int|
        0 <= e < k && #[trigger] admitted_at(events, h, e) && events[e].1.nlink > 1 ==> state_before(
            events,
            h,
            k,
        ).linked.contains(events[e].1.id@)
}

proof fn lemma_links_remembered<P>(events: Seq<(P, FileMeta)>, h: spec_fn(P) -> Option<Identity>, k: int)
    requires
        0 <= k <= events.len(),
    ensures
        links_remembered(events, h, k),
    decreases k,
{
    if k > 0 {
        let i = k - 1;
        lemma_links_remembered(events, h, i);
        lemma_run_step(events, h, i);
        let m = state_before(events, h, i);
        let (m1, reqs) = visit_spec(m, events[i].0, events[i].1);
        lemma_record_all_frame(m1, reqs, h);
        assert(m.linked.subset_of(m1.linked));
    }
}

/// Of two paths to one hard-linked storage object, at most one is counted,
/// put in a size slot, hashed or reported: the later one is passed over.
pub proof fn lemma_hard_links_counted_once<P>(
    events: Seq<(P, FileMeta)>,
    h: spec_fn(P) -> Option<Identity>,
    i: int,
    j: int,
)
    requires
        0 <= i < events.len(),
        0 <= j < events.len(),
        i != j,
        events[i].1.id@ == events[j].1.id@,
        events[i].1.nlink > 1,
        events[j].1.nlink > 1,
    ensures
        !(admitted_at(events, h, i) && admitted_at(events, h, j)),
        !admitted_at(events, h, j) ==> requests_at(events, h, j).len() == 0 && state_before(
            events,
            h,
            j + 1,
        ) == state_before(events, h, j),
        !admitted_at(events, h, i) ==> requests_at(events, h, i).len() == 0 && state_before(
            events,
            h,
            i + 1,
        ) == state_before(events, h, i),
{
    if i < j {
        lemma_links_remembered(events, h, j);
    } else {
        lemma_links_remembered(events, h, i);
    }
    lemma_run_step(events, h, i);
    lemma_run_step(events, h, j);
}

} // verus!
