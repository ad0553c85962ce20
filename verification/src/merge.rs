//! Multi-disk merge engine.
//!
//! Fed one entry stream per participating disk, the engine performs a
//! k-way sorted merge keyed by entry name: each round selects the smallest
//! name any live stream offers, consumes exactly the streams offering that
//! name, and classifies the name by quorum agreement — the dominant
//! variant's support against `min_disks` decides between one `agreed`
//! event and one `partial` event carrying every disk's raw value. A
//! cancelled engine emits nothing further and reports the cancellation.

use vstd::prelude::*;
use crate::entry::{entries_sorted, entry_views, Entry, EntryV, copy_bytes, copy_entry,
    entries_equal};
use crate::order::{lex_lt, lex_le, compare_names, NameCmp, lemma_lex_irrefl, lemma_lex_trans,
    lemma_lex_total};

verus! {

/// Why a disk stopped contributing.
#[derive(Clone, Copy, PartialEq, Eq, Structural, Debug)]
pub enum DiskError {
    /// The disk was absent or offline at request time: a skip, not a fault.
    Unavailable,
    /// A read failure mid-scan: the disk is dropped from further rounds.
    Io,
    /// The disk's stream violated the transport framing; treated as an
    /// I/O failure of that disk.
    MalformedStream,
}

/// One disk's contribution to a merge: its walked entries, the read
/// cursor, and whether the stream ended in an error instead of a clean
/// end-of-stream.
pub struct DiskStream {
    /// Entries this disk reported, in strictly ascending name order.
    pub entries: Vec<Entry>,
    /// How many entries were already consumed by the merge.
    pub pos: usize,
    /// Whether the stream terminated with an error after its entries.
    pub broken: bool,
}

/// Mathematical image of a [`DiskStream`]: what is still to be consumed.
#[verifier::ext_equal]
pub struct StreamV {
    pub rem: Seq<EntryV>,
    pub broken: bool,
}

impl DiskStream {
    /// Structural bound: the cursor never passes the end.
    pub open spec fn wf(&self) -> bool {
        self.pos <= self.entries@.len()
    }
}

impl View for DiskStream {
    type V = StreamV;

    open spec fn view(&self) -> StreamV {
        StreamV { rem: entry_views(self.entries@).skip(self.pos as int), broken: self.broken }
    }
}

/// One classification event; exactly one is emitted per distinct name.
pub enum MergeEvent {
    /// Enough disks agree on this exact entry.
    Agreed { entry: Entry },
    /// Disks disagree, or too few reported the name: all per-disk raw
    /// values (index-aligned with the merged streams) and the per-disk
    /// errors known at this round.
    Partial { name: Vec<u8>, per_disk: Vec<Option<Entry>>, errors: Vec<Option<DiskError>> },
}

/// Mathematical image of a [`MergeEvent`].
pub enum EventV {
    Agreed { entry: EntryV },
    Partial { name: Seq<u8>, per_disk: Seq<Option<EntryV>>, errors: Seq<Option<DiskError>> },
}

/// View of an optional entry.
pub open spec fn opt_entry_view(o: Option<Entry>) -> Option<EntryV> {
    match o {
        Some(e) => Some(e@),
        None => None,
    }
}

/// Views of a sequence of optional entries.
pub open spec fn opt_entry_views(s: Seq<Option<Entry>>) -> Seq<Option<EntryV>> {
    s.map(|i: int, o: Option<Entry>| opt_entry_view(o))
}

impl View for MergeEvent {
    type V = EventV;

    open spec fn view(&self) -> EventV {
        match self {
            MergeEvent::Agreed { entry } => EventV::Agreed { entry: entry@ },
            MergeEvent::Partial { name, per_disk, errors } => EventV::Partial {
                name: name@,
                per_disk: opt_entry_views(per_disk@),
                errors: errors@,
            },
        }
    }
}

/// The views of a sequence of events.
pub open spec fn event_views(s: Seq<MergeEvent>) -> Seq<EventV> {
    s.map(|i: int, e: MergeEvent| e@)
}

/// The name of an event.
pub open spec fn event_name(ev: EventV) -> Seq<u8> {
    match ev {
        EventV::Agreed { entry } => entry.name,
        EventV::Partial { name, .. } => name,
    }
}

/// The smallest head name among the first `k` streams, if any is live.
pub open spec fn min_name_upto(ss: Seq<StreamV>, k: int) -> Option<Seq<u8>>
    decreases k,
{
    if k <= 0 {
        None
    } else {
        let prev = min_name_upto(ss, k - 1);
        if ss[k - 1].rem.len() == 0 {
            prev
        } else {
            match prev {
                None => Some(ss[k - 1].rem[0].name),
                Some(m) => if lex_lt(ss[k - 1].rem[0].name, m) {
                    Some(ss[k - 1].rem[0].name)
                } else {
                    Some(m)
                },
            }
        }
    }
}

/// The smallest head name any live stream offers.
pub open spec fn min_name(ss: Seq<StreamV>) -> Option<Seq<u8>> {
    min_name_upto(ss, ss.len() as int)
}

/// The minimum is a live head and bounds every live head from below.
pub proof fn lemma_min_name_upto(ss: Seq<StreamV>, k: int)
    requires
        0 <= k <= ss.len(),
    ensures
        (min_name_upto(ss, k) is Some) == (exists|i: int|
            0 <= i < k && #[trigger] ss[i].rem.len() > 0),
        min_name_upto(ss, k) matches Some(m) ==> (exists|i: int|
            0 <= i < k && #[trigger] ss[i].rem.len() > 0 && ss[i].rem[0].name == m) && (forall|
            i: int,
        |
            0 <= i < k && #[trigger] ss[i].rem.len() > 0 ==> lex_le(m, ss[i].rem[0].name)),
    decreases k,
{
    if k > 0 {
        lemma_min_name_upto(ss, k - 1);
        let prev = min_name_upto(ss, k - 1);
        if ss[k - 1].rem.len() == 0 {
        } else {
            let h = ss[k - 1].rem[0].name;
            match prev {
                None => {
                },
                Some(m) => {
                    if lex_lt(h, m) {
                        assert forall|i: int| 0 <= i < k && #[trigger] ss[i].rem.len() > 0 implies
                            lex_le(h, ss[i].rem[0].name) by {
                            if i < k - 1 {
                                assert(lex_le(m, ss[i].rem[0].name));
                                if m == ss[i].rem[0].name {
                                } else {
                                    lemma_lex_trans(h, m, ss[i].rem[0].name);
                                }
                            }
                        }
                    } else {
                        lemma_lex_total(h, m);
                        assert(lex_le(m, h));
                    }
                },
            }
        }
    }
}

/// What one stream offers for the round on name `m`.
pub open spec fn round_entry(s: StreamV, m: Seq<u8>) -> Option<EntryV> {
    if s.rem.len() > 0 && s.rem[0].name == m {
        Some(s.rem[0])
    } else {
        None
    }
}

/// The per-disk raw values observed for the round on `m`, index-aligned
/// with the streams.
pub open spec fn round_entries(ss: Seq<StreamV>, m: Seq<u8>) -> Seq<Option<EntryV>> {
    Seq::new(ss.len(), |i: int| round_entry(ss[i], m))
}

/// The per-disk errors known at a round: a disk that ran out of entries
/// on a broken stream can no longer vote and counts as failed.
pub open spec fn round_errors(ss: Seq<StreamV>) -> Seq<Option<DiskError>> {
    Seq::new(
        ss.len(),
        |i: int| if ss[i].rem.len() == 0 && ss[i].broken {
            Some(DiskError::Io)
        } else {
            None
        },
    )
}

/// One stream after the round on `m`: consumed only if it contributed.
pub open spec fn advance_stream(s: StreamV, m: Seq<u8>) -> StreamV {
    if round_entry(s, m) is Some {
        StreamV { rem: s.rem.drop_first(), broken: s.broken }
    } else {
        s
    }
}

/// All streams after the round on `m`.
pub open spec fn advance_all(ss: Seq<StreamV>, m: Seq<u8>) -> Seq<StreamV> {
    Seq::new(ss.len(), |i: int| advance_stream(ss[i], m))
}

/// How many entries the contributors of this round counted together: the
/// support of entry `e` among the observed values.
pub open spec fn support(cs: Seq<Option<EntryV>>, e: EntryV, k: int) -> int
    decreases k,
{
    if k <= 0 {
        0
    } else {
        support(cs, e, k - 1) + if cs[k - 1] == Some(e) {
            1int
        } else {
            0int
        }
    }
}

/// The first observed value whose support is maximal among the first `k`
/// observations: the dominant variant of the round.
pub open spec fn best_upto(cs: Seq<Option<EntryV>>, k: int) -> Option<int>
    decreases k,
{
    if k <= 0 {
        None
    } else {
        let prev = best_upto(cs, k - 1);
        match cs[k - 1] {
            None => prev,
            Some(e) => match prev {
                None => Some(k - 1),
                Some(b) => if support(cs, e, cs.len() as int) > support(
                    cs,
                    cs[b]->0,
                    cs.len() as int,
                ) {
                    Some(k - 1)
                } else {
                    prev
                },
            },
        }
    }
}

/// The classification of one round: the dominant variant is agreed when
/// its support reaches the quorum threshold; otherwise the name resolves
/// as partial, carrying all per-disk raw values and known errors.
pub open spec fn classify(
    m: Seq<u8>,
    cs: Seq<Option<EntryV>>,
    errs: Seq<Option<DiskError>>,
    min_disks: int,
) -> EventV {
    match best_upto(cs, cs.len() as int) {
        None => EventV::Partial { name: m, per_disk: cs, errors: errs },
        Some(b) => if support(cs, cs[b]->0, cs.len() as int) >= min_disks {
            EventV::Agreed { entry: cs[b]->0 }
        } else {
            EventV::Partial { name: m, per_disk: cs, errors: errs }
        },
    }
}

/// Entries left over all streams together, counted over the first `k`.
pub open spec fn total_rem(ss: Seq<StreamV>, k: int) -> int
    decreases k,
{
    if k <= 0 {
        0
    } else {
        total_rem(ss, k - 1) + ss[k - 1].rem.len()
    }
}

proof fn lemma_total_rem_advance(ss: Seq<StreamV>, m: Seq<u8>, k: int, w: int)
    requires
        0 <= k <= ss.len(),
        0 <= w < ss.len(),
        ss[w].rem.len() > 0,
        ss[w].rem[0].name == m,
    ensures
        total_rem(advance_all(ss, m), k) <= total_rem(ss, k),
        w < k ==> total_rem(advance_all(ss, m), k) < total_rem(ss, k),
        total_rem(ss, k) >= 0,
        total_rem(advance_all(ss, m), k) >= 0,
    decreases k,
{
    if k > 0 {
        lemma_total_rem_advance(ss, m, k - 1, w);
        assert(advance_all(ss, m)[k - 1] == advance_stream(ss[k - 1], m));
    }
}

/// The events of a merge from the given stream state: per round, one
/// classification of the smallest live head name, consuming exactly the
/// streams that offered it.
pub open spec fn spec_merge(ss: Seq<StreamV>, min_disks: int) -> Seq<EventV>
    decreases total_rem(ss, ss.len() as int),
    via spec_merge_decreases
{
    match min_name(ss) {
        None => seq![],
        Some(m) => seq![classify(m, round_entries(ss, m), round_errors(ss), min_disks)]
            + spec_merge(advance_all(ss, m), min_disks),
    }
}

#[via_fn]
proof fn spec_merge_decreases(ss: Seq<StreamV>, min_disks: int) {
    match min_name(ss) {
        None => {
        },
        Some(m) => {
            lemma_min_name_upto(ss, ss.len() as int);
            let w = choose|i: int|
                0 <= i < ss.len() && #[trigger] ss[i].rem.len() > 0 && ss[i].rem[0].name == m;
            lemma_total_rem_advance(ss, m, ss.len() as int, w);
            assert(advance_all(ss, m).len() == ss.len());
        },
    }
}

/// Views of a list of disk streams.
pub open spec fn sviews(ds: Seq<DiskStream>) -> Seq<StreamV> {
    ds.map(|i: int, d: DiskStream| d@)
}

proof fn lemma_best_upto_max(cs: Seq<Option<EntryV>>, k: int)
    requires
        0 <= k <= cs.len(),
    ensures
        (best_upto(cs, k) is None) == (forall|i: int| 0 <= i < k ==> #[trigger] cs[i] is None),
        best_upto(cs, k) matches Some(b) ==> 0 <= b < k && cs[b] is Some && (forall|i: int|
            0 <= i < k && #[trigger] cs[i] is Some ==> support(cs, cs[i]->0, cs.len() as int)
                <= support(cs, cs[b]->0, cs.len() as int)),
    decreases k,
{
    if k > 0 {
        lemma_best_upto_max(cs, k - 1);
    }
}

proof fn lemma_support_all(cs: Seq<Option<EntryV>>, e: EntryV, k: int)
    requires
        0 <= k <= cs.len(),
        forall|i: int| 0 <= i < cs.len() ==> #[trigger] cs[i] == Some(e),
    ensures
        support(cs, e, k) == k,
    decreases k,
{
    if k > 0 {
        lemma_support_all(cs, e, k - 1);
    }
}

proof fn lemma_support_single(cs: Seq<Option<EntryV>>, x: EntryV, j: int, k: int)
    requires
        0 <= k <= cs.len(),
        0 <= j < cs.len(),
        cs[j] == Some(x),
        forall|i: int| 0 <= i < cs.len() && #[trigger] cs[i] == Some(x) ==> i == j,
    ensures
        support(cs, x, k) == if j < k {
            1int
        } else {
            0int
        },
    decreases k,
{
    if k > 0 {
        lemma_support_single(cs, x, j, k - 1);
    }
}

/// When no single variant gathers `min_disks` identical reports, the
/// round resolves as partial, carrying every disk's raw value and the
/// per-disk errors as observed.
pub proof fn lemma_classify_no_quorum(
    m: Seq<u8>,
    cs: Seq<Option<EntryV>>,
    errs: Seq<Option<DiskError>>,
    min_disks: int,
)
    requires
        forall|i: int|
            0 <= i < cs.len() && #[trigger] cs[i] is Some ==> support(
                cs,
                cs[i]->0,
                cs.len() as int,
            ) < min_disks,
    ensures
        classify(m, cs, errs, min_disks) == (EventV::Partial {
            name: m,
            per_disk: cs,
            errors: errs,
        }),
{
    lemma_best_upto_max(cs, cs.len() as int);
}

/// Majority wins: when every reporting disk but one hands in the exact
/// same entry, at least two disks agree on it, and the agreeing count
/// reaches `min_disks`, the name resolves as agreed with the majority's
/// payload — the divergent minority is discarded.
pub proof fn lemma_classify_majority(
    m: Seq<u8>,
    cs: Seq<Option<EntryV>>,
    errs: Seq<Option<DiskError>>,
    min_disks: int,
    e: EntryV,
    j: int,
)
    requires
        0 <= j < cs.len(),
        cs[j] is Some,
        cs[j]->0 != e,
        forall|i: int|
            0 <= i < cs.len() && i != j && #[trigger] cs[i] is Some ==> cs[i] == Some(e),
        support(cs, e, cs.len() as int) >= min_disks,
        support(cs, e, cs.len() as int) >= 2,
    ensures
        classify(m, cs, errs, min_disks) == (EventV::Agreed { entry: e }),
{
    let n = cs.len() as int;
    let d = cs[j]->0;
    assert(cs[j] == Some(d));
    lemma_support_single(cs, d, j, n);
    lemma_best_upto_max(cs, n);
    assert(best_upto(cs, n) is Some);
    let b = best_upto(cs, n)->0;
    assert(cs[b] is Some);
    if b == j {
        lemma_support_witness(cs, e, n);
        let w = choose|i: int| 0 <= i < n && #[trigger] cs[i] == Some(e);
        assert(cs[w] is Some);
        assert(support(cs, cs[w]->0, n) <= support(cs, cs[b]->0, n));
        assert(false);
    } else {
        assert(cs[b] == Some(e));
    }
}

proof fn lemma_support_witness(cs: Seq<Option<EntryV>>, e: EntryV, k: int)
    requires
        0 <= k <= cs.len(),
        support(cs, e, k) > 0,
    ensures
        exists|i: int| 0 <= i < k && #[trigger] cs[i] == Some(e),
    decreases k,
{
    if k > 0 {
        if cs[k - 1] == Some(e) {
        } else {
            lemma_support_witness(cs, e, k - 1);
        }
    }
}

/// A round's event is named by the round's name.
proof fn lemma_classify_name(
    m: Seq<u8>,
    ss: Seq<StreamV>,
    errs: Seq<Option<DiskError>>,
    min_disks: int,
)
    requires
        min_name(ss) == Some(m),
    ensures
        event_name(classify(m, round_entries(ss, m), round_errors(ss), min_disks)) == m,
{
    let cs = round_entries(ss, m);
    lemma_best_upto_max(cs, cs.len() as int);
    match best_upto(cs, cs.len() as int) {
        None => {
        },
        Some(b) => {
            assert(cs[b] == round_entry(ss[b], m));
            assert(cs[b]->0.name == m);
        },
    }
}

/// For N disks reporting the identical stream of entries, the merge
/// yields exactly one agreed event per entry, in stream order, and no
/// partial event at all, for any quorum threshold up to N.
pub proof fn lemma_merge_identical(n: int, s: Seq<EntryV>, min_disks: int)
    requires
        n >= 1,
        min_disks <= n,
    ensures
        spec_merge(Seq::new(n as nat, |i: int| StreamV { rem: s, broken: false }), min_disks)
            == s.map(|i: int, e: EntryV| EventV::Agreed { entry: e }),
    decreases s.len(),
{
    let ss = Seq::new(n as nat, |i: int| StreamV { rem: s, broken: false });
    lemma_min_name_upto(ss, n);
    if s.len() == 0 {
        assert(min_name(ss) is None);
        assert(spec_merge(ss, min_disks) =~= s.map(|i: int, e: EntryV| EventV::Agreed {
            entry: e,
        }));
    } else {
        let m = s[0].name;
        assert(ss[0].rem.len() > 0);
        assert(min_name(ss) is Some);
        let m0 = min_name(ss)->0;
        assert(m0 == m) by {
            assert(lex_le(m0, ss[0].rem[0].name));
            let w = choose|i: int|
                0 <= i < n && #[trigger] ss[i].rem.len() > 0 && ss[i].rem[0].name == m0;
            assert(ss[w].rem[0].name == m);
        }
        let cs = round_entries(ss, m);
        assert(forall|i: int| 0 <= i < n ==> #[trigger] cs[i] == Some(s[0]));
        lemma_support_all(cs, s[0], n);
        lemma_best_upto_max(cs, n);
        assert(best_upto(cs, n) is Some);
        let b = best_upto(cs, n)->0;
        assert(cs[b] == Some(s[0]));
        assert(classify(m, cs, round_errors(ss), min_disks) == (EventV::Agreed { entry: s[0] }));
        let ss2 = Seq::new(n as nat, |i: int| StreamV { rem: s.drop_first(), broken: false });
        assert(advance_all(ss, m) =~= ss2);
        lemma_merge_identical(n, s.drop_first(), min_disks);
        assert(spec_merge(ss, min_disks) == seq![EventV::Agreed { entry: s[0] }] + spec_merge(
            ss2,
            min_disks,
        ));
        assert(seq![EventV::Agreed { entry: s[0] }] + s.drop_first().map(
            |i: int, e: EntryV| EventV::Agreed { entry: e },
        ) =~= s.map(|i: int, e: EntryV| EventV::Agreed { entry: e }));
    }
}

/// Some stream still holds an entry with this name.
pub open spec fn stream_has_name(ss: Seq<StreamV>, x: Seq<u8>) -> bool {
    exists|i: int, j: int|
        0 <= i < ss.len() && 0 <= j < ss[i].rem.len() && (#[trigger] ss[i].rem[j]).name == x
}

/// Completeness: every name any stream holds is classified — exactly one
/// event carries it (uniqueness comes from the ordering of events).
pub proof fn lemma_merge_complete(ss: Seq<StreamV>, min_disks: int, x: Seq<u8>)
    requires
        stream_has_name(ss, x),
    ensures
        exists|k: int|
            0 <= k < spec_merge(ss, min_disks).len() && event_name(
                #[trigger] spec_merge(ss, min_disks)[k],
            ) == x,
    decreases total_rem(ss, ss.len() as int),
{
    let (i, j) = choose|i: int, j: int|
        0 <= i < ss.len() && 0 <= j < ss[i].rem.len() && (#[trigger] ss[i].rem[j]).name == x;
    lemma_min_name_upto(ss, ss.len() as int);
    assert(min_name(ss) is Some);
    let m = min_name(ss)->0;
    let out = spec_merge(ss, min_disks);
    lemma_classify_name(m, ss, round_errors(ss), min_disks);
    let w = choose|i: int|
        0 <= i < ss.len() && #[trigger] ss[i].rem.len() > 0 && ss[i].rem[0].name == m;
    lemma_total_rem_advance(ss, m, ss.len() as int, w);
    if m == x {
        assert(event_name(out[0]) == x);
    } else {
        let ss2 = advance_all(ss, m);
        assert(ss2[i] == advance_stream(ss[i], m));
        if round_entry(ss[i], m) is Some {
            assert(ss[i].rem[0].name == m);
            assert(j >= 1);
            assert(ss2[i].rem[j - 1] == ss[i].rem[j]);
            assert(stream_has_name(ss2, x));
        } else {
            assert(ss2[i] == ss[i]);
            assert(stream_has_name(ss2, x));
        }
        lemma_merge_complete(ss2, min_disks, x);
        let k2 = choose|k: int|
            0 <= k < spec_merge(ss2, min_disks).len() && event_name(
                #[trigger] spec_merge(ss2, min_disks)[k],
            ) == x;
        assert(out[k2 + 1] == spec_merge(ss2, min_disks)[k2]);
        assert(event_name(out[k2 + 1]) == x);
    }
}

/// Soundness: every emitted event is named by an entry some stream held;
/// the engine never invents a name.
pub proof fn lemma_merge_sound(ss: Seq<StreamV>, min_disks: int, k: int)
    requires
        0 <= k < spec_merge(ss, min_disks).len(),
    ensures
        stream_has_name(ss, event_name(spec_merge(ss, min_disks)[k])),
    decreases total_rem(ss, ss.len() as int),
{
    lemma_min_name_upto(ss, ss.len() as int);
    let m = min_name(ss)->0;
    let out = spec_merge(ss, min_disks);
    lemma_classify_name(m, ss, round_errors(ss), min_disks);
    let w = choose|i: int|
        0 <= i < ss.len() && #[trigger] ss[i].rem.len() > 0 && ss[i].rem[0].name == m;
    lemma_total_rem_advance(ss, m, ss.len() as int, w);
    if k == 0 {
        assert(ss[w].rem[0].name == event_name(out[0]));
        assert(stream_has_name(ss, event_name(out[0])));
    } else {
        let ss2 = advance_all(ss, m);
        lemma_merge_sound(ss2, min_disks, k - 1);
        assert(out[k] == spec_merge(ss2, min_disks)[k - 1]);
        let x = event_name(out[k]);
        let (i, j) = choose|i: int, j: int|
            0 <= i < ss2.len() && 0 <= j < ss2[i].rem.len() && (#[trigger] ss2[i].rem[j]).name
                == x;
        assert(ss2[i] == advance_stream(ss[i], m));
        if round_entry(ss[i], m) is Some {
            assert(ss2[i].rem[j] == ss[i].rem[j + 1]);
            assert(stream_has_name(ss, x));
        } else {
            assert(stream_has_name(ss, x));
        }
    }
}

/// All streams sorted.
pub open spec fn streams_sorted(ss: Seq<StreamV>) -> bool {
    forall|i: int| 0 <= i < ss.len() ==> entries_sorted(#[trigger] ss[i].rem)
}

/// Global ordering across both callback streams combined: when every disk
/// stream is strictly name-ordered, the merged events are too — a smaller
/// name is never emitted after a larger one, and no name repeats.
pub proof fn lemma_merge_events_sorted(ss: Seq<StreamV>, min_disks: int)
    requires
        streams_sorted(ss),
    ensures
        forall|a: int, b: int|
            0 <= a < b < spec_merge(ss, min_disks).len() ==> lex_lt(
                event_name(#[trigger] spec_merge(ss, min_disks)[a]),
                event_name(#[trigger] spec_merge(ss, min_disks)[b]),
            ),
        min_name(ss) matches Some(m0) ==> forall|a: int|
            0 <= a < spec_merge(ss, min_disks).len() ==> lex_le(
                m0,
                event_name(#[trigger] spec_merge(ss, min_disks)[a]),
            ),
    decreases total_rem(ss, ss.len() as int),
{
    lemma_min_name_upto(ss, ss.len() as int);
    match min_name(ss) {
        None => {
        },
        Some(m) => {
            let out = spec_merge(ss, min_disks);
            let ss2 = advance_all(ss, m);
            let rest = spec_merge(ss2, min_disks);
            lemma_classify_name(m, ss, round_errors(ss), min_disks);
            assert(event_name(out[0]) == m);
            // Every head after the round is strictly above m.
            assert forall|i: int| 0 <= i < ss2.len() && #[trigger] ss2[i].rem.len() > 0 implies
                lex_lt(m, ss2[i].rem[0].name) by {
                assert(ss2[i] == advance_stream(ss[i], m));
                if round_entry(ss[i], m) is Some {
                    assert(ss[i].rem.len() > 0);
                    assert(entries_sorted(ss[i].rem));
                    assert(ss2[i].rem[0] == ss[i].rem[1]);
                    assert(lex_lt(ss[i].rem[0].name, ss[i].rem[1].name));
                } else {
                    assert(ss2[i] == ss[i]);
                    assert(lex_le(m, ss[i].rem[0].name));
                    assert(ss[i].rem[0].name != m);
                }
            }
            // Streams stay sorted after the round.
            assert forall|i: int| 0 <= i < ss2.len() implies entries_sorted(
                #[trigger] ss2[i].rem,
            ) by {
                assert(ss2[i] == advance_stream(ss[i], m));
                if round_entry(ss[i], m) is Some {
                    let r = ss[i].rem;
                    assert(entries_sorted(r));
                    assert forall|a: int, b: int| 0 <= a < b < r.drop_first().len() implies
                        lex_lt(
                        (#[trigger] r.drop_first()[a]).name,
                        (#[trigger] r.drop_first()[b]).name,
                    ) by {
                        assert(r.drop_first()[a] == r[a + 1]);
                        assert(r.drop_first()[b] == r[b + 1]);
                    }
                }
            }
            let w = choose|i: int|
                0 <= i < ss.len() && #[trigger] ss[i].rem.len() > 0 && ss[i].rem[0].name == m;
            lemma_total_rem_advance(ss, m, ss.len() as int, w);
            assert(ss2.len() == ss.len());
            lemma_merge_events_sorted(ss2, min_disks);
            lemma_min_name_upto(ss2, ss2.len() as int);
            match min_name(ss2) {
                None => {
                    assert(rest =~= Seq::<EventV>::empty());
                },
                Some(m2) => {
                    assert(lex_lt(m, m2)) by {
                        let w2 = choose|i: int|
                            0 <= i < ss2.len() && #[trigger] ss2[i].rem.len() > 0
                                && ss2[i].rem[0].name == m2;
                        assert(lex_lt(m, ss2[w2].rem[0].name));
                    }
                    assert forall|a: int| 0 <= a < out.len() implies lex_le(
                        m,
                        event_name(#[trigger] out[a]),
                    ) by {
                        if a > 0 {
                            assert(out[a] == rest[a - 1]);
                            assert(lex_le(m2, event_name(rest[a - 1])));
                            if m2 == event_name(rest[a - 1]) {
                            } else {
                                lemma_lex_trans(m, m2, event_name(rest[a - 1]));
                            }
                        }
                    }
                    assert forall|a: int, b: int| 0 <= a < b < out.len() implies lex_lt(
                        event_name(#[trigger] out[a]),
                        event_name(#[trigger] out[b]),
                    ) by {
                        if a == 0 {
                            assert(out[b] == rest[b - 1]);
                            assert(lex_le(m2, event_name(rest[b - 1])));
                            if m2 == event_name(rest[b - 1]) {
                            } else {
                                lemma_lex_trans(m, m2, event_name(rest[b - 1]));
                            }
                        } else {
                            assert(out[a] == rest[a - 1]);
                            assert(out[b] == rest[b - 1]);
                        }
                    }
                },
            }
        },
    }
}

/// Count how often exactly this entry was observed in a round.
fn count_support(cs: &Vec<Option<Entry>>, e: &Entry) -> (r: usize)
    ensures
        r as int == support(opt_entry_views(cs@), e@, cs@.len() as int),
{
    let ghost csv = opt_entry_views(cs@);
    let mut r: usize = 0;
    let mut k: usize = 0;
    while k < cs.len()
        invariant
            k <= cs.len(),
            csv == opt_entry_views(cs@),
            r as int == support(csv, e@, k as int),
            r <= k,
        decreases cs.len() - k,
    {
        let hit = match &cs[k] {
            Some(x) => entries_equal(x, e),
            None => false,
        };
        proof {
            assert(csv[k as int] == opt_entry_view(cs@[k as int]));
        }
        if hit {
            r = r + 1;
        }
        k = k + 1;
    }
    r
}

/// Classify one round: pick the dominant variant (the first observed
/// value of maximal support) and compare its support to the quorum.
fn classify_round(
    name: Vec<u8>,
    cs: Vec<Option<Entry>>,
    errs: Vec<Option<DiskError>>,
    min_disks: usize,
) -> (ev: MergeEvent)
    ensures
        ev@ == classify(name@, opt_entry_views(cs@), errs@, min_disks as int),
{
    let ghost csv = opt_entry_views(cs@);
    let mut best: Option<usize> = None;
    let mut best_sup: usize = 0;
    let mut k: usize = 0;
    while k < cs.len()
        invariant
            k <= cs.len(),
            csv == opt_entry_views(cs@),
            best is None ==> best_upto(csv, k as int) is None,
            best matches Some(b) ==> b < k && best_upto(csv, k as int) == Some(b as int)
                && csv[b as int] is Some && best_sup as int == support(
                csv,
                csv[b as int]->0,
                csv.len() as int,
            ),
        decreases cs.len() - k,
    {
        proof {
            assert(csv[k as int] == opt_entry_view(cs@[k as int]));
        }
        match &cs[k] {
            None => {
            },
            Some(e) => {
                let s = count_support(&cs, e);
                match best {
                    None => {
                        best = Some(k);
                        best_sup = s;
                    },
                    Some(_) => {
                        if s > best_sup {
                            best = Some(k);
                            best_sup = s;
                        }
                    },
                }
            },
        }
        k = k + 1;
    }
    match best {
        None => MergeEvent::Partial { name, per_disk: cs, errors: errs },
        Some(b) => {
            if best_sup >= min_disks {
                match &cs[b] {
                    Some(e) => MergeEvent::Agreed { entry: copy_entry(e) },
                    None => vstd::pervasive::unreached(),
                }
            } else {
                MergeEvent::Partial { name, per_disk: cs, errors: errs }
            }
        },
    }
}

/// Find a live stream holding the smallest head name.
fn find_min(streams: &Vec<DiskStream>) -> (r: Option<usize>)
    requires
        forall|i: int| 0 <= i < streams@.len() ==> (#[trigger] streams@[i]).wf(),
    ensures
        (r is Some) == (min_name(sviews(streams@)) is Some),
        r matches Some(b) ==> b < streams@.len() && streams@[b as int]@.rem.len() > 0 && min_name(
            sviews(streams@),
        ) == Some(streams@[b as int]@.rem[0].name),
{
    let ghost sv = sviews(streams@);
    let mut best: Option<usize> = None;
    let mut i: usize = 0;
    while i < streams.len()
        invariant
            i <= streams.len(),
            sv == sviews(streams@),
            forall|j: int| 0 <= j < streams@.len() ==> (#[trigger] streams@[j]).wf(),
            best is None ==> min_name_upto(sv, i as int) is None,
            best matches Some(b) ==> b < i && sv[b as int].rem.len() > 0 && min_name_upto(
                sv,
                i as int,
            ) == Some(sv[b as int].rem[0].name),
        decreases streams.len() - i,
    {
        let d = &streams[i];
        proof {
            assert(sv[i as int] == streams@[i as int]@);
            assert(sv[i as int].rem.len() == d.entries@.len() - d.pos);
            if d.pos < d.entries.len() {
                assert(sv[i as int].rem[0] == entry_views(d.entries@)[d.pos as int]);
            }
        }
        if d.pos < d.entries.len() {
            match best {
                None => {
                    best = Some(i);
                },
                Some(b) => {
                    let bd = &streams[b];
                    proof {
                        assert(sv[b as int].rem[0] == entry_views(bd.entries@)[bd.pos as int]);
                    }
                    match compare_names(&d.entries[d.pos].name, &bd.entries[bd.pos].name) {
                        NameCmp::Before => {
                            best = Some(i);
                        },
                        _ => {
                        },
                    }
                },
            }
        }
        i = i + 1;
    }
    best
}

/// Terminal outcome of one listing call.
#[derive(Clone, Copy, PartialEq, Eq, Structural, Debug)]
pub enum MergeOutcome {
    /// The merge ran to completion with quorum satisfied.
    Success,
    /// Too few usable disks, even after fallback: no callback ever fired.
    QuorumUnmet,
    /// Cooperative cancellation was observed.
    Cancelled,
}

/// The merge coordinator: one state machine driving the k-way merge, one
/// `step` per round. A driver loops `step` until it reports no work left,
/// then reads `finish`; a cancel between steps halts all further output.
pub struct MergeState {
    /// Per-disk streams, index-aligned for the whole call.
    pub streams: Vec<DiskStream>,
    /// Quorum threshold: how many identical reports make a name agreed.
    pub min_disks: usize,
    /// Events emitted so far, in ascending name order.
    pub events: Vec<MergeEvent>,
    /// Whether cancellation was observed.
    pub cancelled: bool,
}

impl MergeState {
    /// The views of the streams still to be merged.
    pub open spec fn views(&self) -> Seq<StreamV> {
        sviews(self.streams@)
    }

    /// Structural bounds of all streams.
    pub open spec fn wf(&self) -> bool {
        forall|i: int| 0 <= i < self.streams@.len() ==> (#[trigger] self.streams@[i]).wf()
    }

    /// The outcome `finish` will report.
    pub open spec fn outcome_spec(&self) -> MergeOutcome {
        if self.cancelled {
            MergeOutcome::Cancelled
        } else {
            MergeOutcome::Success
        }
    }

    /// A fresh engine over the given streams.
    pub fn new(streams: Vec<DiskStream>, min_disks: usize) -> (r: MergeState)
        requires
            forall|i: int| 0 <= i < streams@.len() ==> (#[trigger] streams@[i]).wf(),
        ensures
            r.views() == sviews(streams@),
            r.min_disks == min_disks,
            r.events@ =~= Seq::<MergeEvent>::empty(),
            !r.cancelled,
            r.wf(),
    {
        MergeState { streams, min_disks, events: Vec::new(), cancelled: false }
    }

    /// Observe cancellation: no further events will be emitted.
    pub fn cancel(&mut self)
        ensures
            final(self).cancelled,
            final(self).streams == old(self).streams,
            final(self).events == old(self).events,
            final(self).min_disks == old(self).min_disks,
    {
        self.cancelled = true;
    }

    /// The aggregate outcome, reported exactly once by the driver after
    /// the last step: cancellation wins over success.
    pub fn finish(&self) -> (r: MergeOutcome)
        ensures
            r == self.outcome_spec(),
    {
        if self.cancelled {
            MergeOutcome::Cancelled
        } else {
            MergeOutcome::Success
        }
    }

    /// One merge round: pick the smallest live head name, classify its
    /// contributors, emit exactly one event, and consume exactly the
    /// contributing streams. After a cancel, nothing happens at all.
    pub fn step(&mut self) -> (progressed: bool)
        requires
            old(self).wf(),
        ensures
            final(self).wf(),
            final(self).min_disks == old(self).min_disks,
            final(self).cancelled == old(self).cancelled,
            old(self).cancelled ==> *final(self) == *old(self) && !progressed,
            !old(self).cancelled ==> progressed == (min_name(old(self).views()) is Some),
            !progressed ==> *final(self) == *old(self),
            progressed ==> (min_name(old(self).views()) matches Some(m)
                && final(self).views() == advance_all(old(self).views(), m) && event_views(
                final(self).events@,
            ) == event_views(old(self).events@).push(
                classify(
                    m,
                    round_entries(old(self).views(), m),
                    round_errors(old(self).views()),
                    old(self).min_disks as int,
                ),
            )),
    {
        if self.cancelled {
            return false;
        }
        let ghost vs = self.views();
        let bi = match find_min(&self.streams) {
            None => {
                return false;
            },
            Some(bi) => bi,
        };
        let bpos = self.streams[bi].pos;
        let m = copy_bytes(&self.streams[bi].entries[bpos].name);
        let ghost gm = m@;
        proof {
            assert(vs[bi as int].rem[0] == entry_views(self.streams@[bi as int].entries@)[
                bpos as int
            ]);
            assert(min_name(vs) == Some(gm));
        }
        let n = self.streams.len();
        let mut per_disk: Vec<Option<Entry>> = Vec::new();
        let mut errors: Vec<Option<DiskError>> = Vec::new();
        let mut mask: Vec<bool> = Vec::new();
        let mut i: usize = 0;
        while i < n
            invariant
                i <= n,
                n == self.streams@.len(),
                self.wf(),
                vs == self.views(),
                gm == m@,
                per_disk@.len() == i,
                errors@.len() == i,
                mask@.len() == i,
                forall|j: int|
                    0 <= j < i ==> opt_entry_view(#[trigger] per_disk@[j]) == round_entry(
                        vs[j],
                        gm,
                    ),
                forall|j: int| 0 <= j < i ==> #[trigger] errors@[j] == round_errors(vs)[j],
                forall|j: int|
                    0 <= j < i ==> #[trigger] mask@[j] == (round_entry(vs[j], gm) is Some),
            decreases n - i,
        {
            let d = &self.streams[i];
            proof {
                assert(vs[i as int] == self.streams@[i as int]@);
                assert(vs[i as int].rem.len() == d.entries@.len() - d.pos);
                if d.pos < d.entries.len() {
                    assert(vs[i as int].rem[0] == entry_views(d.entries@)[d.pos as int]);
                }
            }
            let contributes = if d.pos < d.entries.len() {
                match compare_names(&d.entries[d.pos].name, &m) {
                    NameCmp::Same => true,
                    _ => false,
                }
            } else {
                false
            };
            if contributes {
                per_disk.push(Some(copy_entry(&d.entries[d.pos])));
                mask.push(true);
            } else {
                per_disk.push(None);
                mask.push(false);
            }
            if d.pos >= d.entries.len() && d.broken {
                errors.push(Some(DiskError::Io));
            } else {
                errors.push(None);
            }
            i = i + 1;
        }
        proof {
            assert(opt_entry_views(per_disk@) =~= round_entries(vs, gm));
            assert(errors@ =~= round_errors(vs));
        }
        let ev = classify_round(m, per_disk, errors, self.min_disks);
        let ghost old_streams = self.streams@;
        let ghost old_events = self.events@;
        let mut i: usize = 0;
        while i < n
            invariant
                i <= n,
                n == self.streams@.len(),
                mask@.len() == n,
                self.events@ == old_events,
                self.min_disks == old(self).min_disks,
                self.cancelled == old(self).cancelled,
                self.streams@.len() == old_streams.len(),
                forall|j: int|
                    0 <= j < n ==> #[trigger] mask@[j] == (round_entry(sviews(old_streams)[j], gm)
                        is Some),
                forall|j: int|
                    i <= j < n ==> #[trigger] self.streams@[j] == old_streams[j],
                forall|j: int|
                    0 <= j < i ==> #[trigger] self.streams@[j]@ == advance_stream(
                        sviews(old_streams)[j],
                        gm,
                    ),
                forall|j: int| 0 <= j < i ==> (#[trigger] self.streams@[j]).wf(),
                forall|j: int| 0 <= j < old_streams.len() ==> (#[trigger] old_streams[j]).wf(),
            decreases n - i,
        {
            let ghost prev = self.streams@;
            if mask[i] {
                let p = self.streams[i].pos;
                let l = self.streams[i].entries.len();
                proof {
                    assert(sviews(old_streams)[i as int] == old_streams[i as int]@);
                    assert(self.streams@[i as int] == old_streams[i as int]);
                    assert(round_entry(old_streams[i as int]@, gm) is Some);
                    assert(old_streams[i as int]@.rem.len() > 0);
                    assert(p < l);
                }
                self.streams[i].pos = p + 1;
                proof {
                    let dold = old_streams[i as int];
                    let dnew = self.streams@[i as int];
                    assert(dnew.entries == dold.entries && dnew.broken == dold.broken
                        && dnew.pos == dold.pos + 1);
                    assert(dnew@.rem =~= dold@.rem.drop_first());
                    assert(dnew@ =~= advance_stream(dold@, gm));
                    assert(dnew.wf());
                    assert forall|j: int| 0 <= j < i + 1 implies #[trigger] self.streams@[j]@
                        == advance_stream(sviews(old_streams)[j], gm) && self.streams@[j].wf() by {
                        if j < i as int {
                            assert(self.streams@[j] == prev[j]);
                            assert(prev[j]@ == advance_stream(sviews(old_streams)[j], gm));
                            assert(prev[j].wf());
                        } else {
                            assert(self.streams@[j] == dnew);
                            assert(sviews(old_streams)[j] == dold@);
                        }
                    }
                }
            } else {
                proof {
                    assert(self.streams@[i as int] == old_streams[i as int]);
                    assert(sviews(old_streams)[i as int] == old_streams[i as int]@);
                    assert(advance_stream(sviews(old_streams)[i as int], gm) == sviews(
                        old_streams,
                    )[i as int]);
                    assert forall|j: int| 0 <= j < i + 1 implies #[trigger] self.streams@[j]@
                        == advance_stream(sviews(old_streams)[j], gm) && self.streams@[j].wf() by {
                        if j < i as int {
                            assert(self.streams@[j] == prev[j]);
                            assert(prev[j]@ == advance_stream(sviews(old_streams)[j], gm));
                            assert(prev[j].wf());
                        } else {
                            assert(self.streams@[j] == old_streams[j]);
                            assert(old_streams[j].wf());
                        }
                    }
                }
            }
            i = i + 1;
        }
        proof {
            assert(vs == sviews(old_streams));
            assert forall|j: int| 0 <= j < self.streams@.len() implies (#[trigger] self.streams@[
                j
            ]).wf() by {
                assert(self.streams@[j]@ == advance_stream(sviews(old_streams)[j], gm));
            }
            assert(self.views() =~= advance_all(vs, gm));
        }
        self.events.push(ev);
        proof {
            assert(event_views(self.events@) =~= event_views(old_events).push(ev@));
        }
        true
    }

    /// Drive the merge to completion: loop rounds until every live stream
    /// is exhausted (or a cancel stops the work).
    pub fn run(&mut self)
        requires
            old(self).wf(),
        ensures
            final(self).wf(),
            final(self).min_disks == old(self).min_disks,
            final(self).cancelled == old(self).cancelled,
            old(self).cancelled ==> *final(self) == *old(self),
            !old(self).cancelled ==> event_views(final(self).events@) == event_views(
                old(self).events@,
            ) + spec_merge(old(self).views(), old(self).min_disks as int),
            !old(self).cancelled ==> min_name(final(self).views()) is None,
    {
        proof {
            assert(event_views(self.events@) + spec_merge(self.views(), self.min_disks as int)
                =~= event_views(old(self).events@) + spec_merge(
                old(self).views(),
                old(self).min_disks as int,
            ));
        }
        loop
            invariant
                self.wf(),
                self.min_disks == old(self).min_disks,
                self.cancelled == old(self).cancelled,
                old(self).cancelled ==> *self == *old(self),
                event_views(self.events@) + spec_merge(self.views(), self.min_disks as int)
                    =~= event_views(old(self).events@) + spec_merge(
                    old(self).views(),
                    old(self).min_disks as int,
                ),
            ensures
                self.wf(),
                self.min_disks == old(self).min_disks,
                self.cancelled == old(self).cancelled,
                old(self).cancelled ==> *self == *old(self),
                event_views(self.events@) + spec_merge(self.views(), self.min_disks as int)
                    =~= event_views(old(self).events@) + spec_merge(
                    old(self).views(),
                    old(self).min_disks as int,
                ),
                !old(self).cancelled ==> min_name(self.views()) is None,
            decreases total_rem(self.views(), self.views().len() as int),
        {
            let ghost pre = self.views();
            let ghost pre_events = self.events@;
            let progressed = self.step();
            if !progressed {
                break;
            }
            proof {
                let m = min_name(pre)->0;
                assert(spec_merge(pre, self.min_disks as int) == seq![
                    classify(
                        m,
                        round_entries(pre, m),
                        round_errors(pre),
                        self.min_disks as int,
                    ),
                ] + spec_merge(advance_all(pre, m), self.min_disks as int));
                assert(event_views(self.events@) + spec_merge(
                    self.views(),
                    self.min_disks as int,
                ) =~= event_views(pre_events) + spec_merge(pre, self.min_disks as int));
                lemma_min_name_upto(pre, pre.len() as int);
                let w = choose|i: int|
                    0 <= i < pre.len() && #[trigger] pre[i].rem.len() > 0 && pre[i].rem[0].name
                        == m;
                lemma_total_rem_advance(pre, m, pre.len() as int, w);
            }
        }
        proof {
            if !old(self).cancelled {
                assert(min_name(self.views()) is None);
                assert(spec_merge(self.views(), self.min_disks as int) =~= Seq::<
                    EventV,
                >::empty());
                assert(event_views(self.events@) =~= event_views(old(self).events@) + spec_merge(
                    old(self).views(),
                    old(self).min_disks as int,
                ));
            }
        }
    }
}

} // verus!
