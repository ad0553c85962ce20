//! The caller-facing listing entry point.
//!
//! One logical listing request fans out to one walker per usable disk,
//! streams each disk's entries through the framed transport, applies the
//! name-prefix filter (fast-forwarding with `skip`) and the per-disk entry
//! cap, and hands the streams to the merge engine. Offline disk slots are
//! skipped without error; when too few primary disks are usable, disks
//! from the fallback set fill in one at a time. If the quorum threshold
//! still cannot be met, the call fails up front with `QuorumUnmet` and no
//! event is ever emitted.

use vstd::prelude::*;
use crate::entry::{entries_sorted, entry_views, Entry, EntryV, copy_bytes};
use crate::merge::{event_views, sviews, DiskStream, EventV, MergeEvent, MergeOutcome, MergeState,
    StreamV, spec_merge, lemma_merge_events_sorted, streams_sorted, event_name};
use crate::order::lex_lt;
use crate::stream::{encode_stream, lemma_stream_round_trip, FrameReader, Peeked};
use crate::tree::{wf_node, Node};
use crate::walker::{cursor_view, spec_after_cursor, spec_walk, spec_walk_request, walk,
    WalkRequest, lemma_walk_request_sorted};

verus! {

/// The multi-disk listing request, minus the disk handles themselves.
pub struct ListOptions {
    /// Descend into sub-prefixes, or report one level only.
    pub recursive: bool,
    /// Quorum threshold: identical reports needed to trust a name.
    pub min_disks: usize,
    /// Per-disk entry cap: a negative value means unlimited, zero means
    /// no entries are taken from any disk.
    pub per_disk_limit: i64,
    /// Keep only names that start with these bytes.
    pub filter_prefix: Option<Vec<u8>>,
    /// Resumption cursor: names at or before it are skipped on every disk.
    pub cursor: Option<Vec<u8>>,
}

/// View of an optional byte-string option field.
pub open spec fn opt_bytes_view(c: Option<Vec<u8>>) -> Option<Seq<u8>> {
    match c {
        None => None,
        Some(v) => Some(v@),
    }
}

/// What one disk's walker delivers for a request, before filter and cap.
pub open spec fn disk_entries(root: Node, opts: ListOptions) -> Seq<EntryV> {
    spec_after_cursor(spec_walk(root, Seq::empty(), opts.recursive), opt_bytes_view(opts.cursor))
}

/// The entries left after the name-prefix filter.
pub open spec fn spec_filter_prefix(s: Seq<EntryV>, p: Option<Seq<u8>>) -> Seq<EntryV>
    decreases s.len(),
{
    match p {
        None => s,
        Some(pre) => {
            if s.len() == 0 {
                seq![]
            } else {
                (if pre.is_prefix_of(s[0].name) {
                    seq![s[0]]
                } else {
                    seq![]
                }) + spec_filter_prefix(s.drop_first(), p)
            }
        },
    }
}

/// The entries a disk may contribute under the per-disk cap.
pub open spec fn spec_disk_cap(s: Seq<EntryV>, limit: i64) -> Seq<EntryV> {
    if limit < 0 {
        s
    } else if s.len() <= limit {
        s
    } else {
        s.take(limit as int)
    }
}

/// The stream one usable disk contributes to the merge.
pub open spec fn disk_stream_view(root: Node, opts: ListOptions) -> StreamV {
    StreamV {
        rem: spec_disk_cap(
            spec_filter_prefix(disk_entries(root, opts), opt_bytes_view(opts.filter_prefix)),
            opts.per_disk_limit,
        ),
        broken: false,
    }
}

/// The trees of the disk slots that are present, in slot order.
pub open spec fn present_trees(ds: Seq<Option<Node>>) -> Seq<Node>
    decreases ds.len(),
{
    if ds.len() == 0 {
        seq![]
    } else {
        (match ds[0] {
            Some(t) => seq![t],
            None => seq![],
        }) + present_trees(ds.drop_first())
    }
}

/// Fallback fill: take present fallback disks one at a time until the
/// count reaches the quorum threshold or the set is exhausted.
pub open spec fn fill_from(fb: Seq<Option<Node>>, have: int, min_disks: int) -> Seq<Node>
    decreases fb.len(),
{
    if fb.len() == 0 || have >= min_disks {
        seq![]
    } else {
        match fb[0] {
            None => fill_from(fb.drop_first(), have, min_disks),
            Some(t) => seq![t] + fill_from(fb.drop_first(), have + 1, min_disks),
        }
    }
}

/// The disks that participate in a call: every present primary, plus
/// fallback disks while the primary count is below the threshold.
pub open spec fn selected_trees(
    ds: Seq<Option<Node>>,
    fb: Seq<Option<Node>>,
    min_disks: int,
) -> Seq<Node> {
    present_trees(ds) + fill_from(fb, present_trees(ds).len() as int, min_disks)
}

/// The streams the merge engine sees for a request.
pub open spec fn list_streams(
    ds: Seq<Option<Node>>,
    fb: Seq<Option<Node>>,
    opts: ListOptions,
) -> Seq<StreamV> {
    selected_trees(ds, fb, opts.min_disks as int).map(|i: int, t: Node| disk_stream_view(t, opts))
}

/// All present trees are well-formed.
pub open spec fn trees_wf(ds: Seq<Option<Node>>) -> bool {
    forall|i: int|
        0 <= i < ds.len() ==> match #[trigger] ds[i] {
            Some(t) => wf_node(t),
            None => true,
        }
}

proof fn lemma_filter_prefix_bound(s: Seq<EntryV>, pre: Seq<u8>, x: Seq<u8>)
    requires
        forall|i: int| 0 <= i < s.len() ==> lex_lt(x, (#[trigger] s[i]).name),
    ensures
        forall|i: int|
            0 <= i < spec_filter_prefix(s, Some(pre)).len() ==> lex_lt(
                x,
                (#[trigger] spec_filter_prefix(s, Some(pre))[i]).name,
            ),
    decreases s.len(),
{
    if s.len() > 0 {
        assert(forall|i: int| 0 <= i < s.drop_first().len() ==> lex_lt(
            x,
            (#[trigger] s.drop_first()[i]).name,
        )) by {
            assert(forall|i: int| 0 <= i < s.drop_first().len() ==> #[trigger] s.drop_first()[i]
                == s[i + 1]);
        }
        lemma_filter_prefix_bound(s.drop_first(), pre, x);
    }
}

/// The name-prefix filter keeps a sorted stream sorted.
pub proof fn lemma_filter_prefix_sorted(s: Seq<EntryV>, p: Option<Seq<u8>>)
    requires
        entries_sorted(s),
    ensures
        entries_sorted(spec_filter_prefix(s, p)),
    decreases s.len(),
{
    match p {
        None => {
        },
        Some(pre) => {
            if s.len() > 0 {
                let rest = s.drop_first();
                assert(entries_sorted(rest)) by {
                    assert(forall|i: int| 0 <= i < rest.len() ==> #[trigger] rest[i] == s[i + 1]);
                }
                lemma_filter_prefix_sorted(rest, p);
                assert(forall|i: int| 0 <= i < rest.len() ==> lex_lt(
                    s[0].name,
                    (#[trigger] rest[i]).name,
                )) by {
                    assert(forall|i: int| 0 <= i < rest.len() ==> #[trigger] rest[i] == s[i + 1]);
                }
                lemma_filter_prefix_bound(rest, pre, s[0].name);
                let tail_out = spec_filter_prefix(rest, p);
                let out = spec_filter_prefix(s, p);
                if pre.is_prefix_of(s[0].name) {
                    assert(out == seq![s[0]] + tail_out);
                    assert forall|i: int, j: int| 0 <= i < j < out.len() implies lex_lt(
                        out[i].name,
                        out[j].name,
                    ) by {
                        if i == 0 {
                            assert(out[j] == tail_out[j - 1]);
                        } else {
                            assert(out[i] == tail_out[i - 1] && out[j] == tail_out[j - 1]);
                        }
                    }
                } else {
                    assert(out =~= tail_out);
                }
            }
        },
    }
}

/// The per-disk cap keeps a sorted stream sorted.
pub proof fn lemma_disk_cap_sorted(s: Seq<EntryV>, limit: i64)
    requires
        entries_sorted(s),
    ensures
        entries_sorted(spec_disk_cap(s, limit)),
{
    if 0 <= limit < s.len() {
        assert(forall|i: int| 0 <= i < limit ==> #[trigger] s.take(limit as int)[i] == s[i]);
    }
}

/// What one disk contributes is strictly ascending in name order.
pub proof fn lemma_disk_stream_sorted(root: Node, opts: ListOptions)
    requires
        wf_node(root),
    ensures
        entries_sorted(disk_stream_view(root, opts).rem),
{
    let req = WalkRequest { recursive: opts.recursive, cursor: opts.cursor, limit: None };
    lemma_walk_request_sorted(root, req);
    assert(cursor_view(opts.cursor) == opt_bytes_view(opts.cursor));
    assert(spec_walk_request(root, req) == disk_entries(root, opts));
    lemma_filter_prefix_sorted(disk_entries(root, opts), opt_bytes_view(opts.filter_prefix));
    lemma_disk_cap_sorted(
        spec_filter_prefix(disk_entries(root, opts), opt_bytes_view(opts.filter_prefix)),
        opts.per_disk_limit,
    );
}

proof fn lemma_present_trees_wf(ds: Seq<Option<Node>>)
    requires
        trees_wf(ds),
    ensures
        forall|i: int| 0 <= i < present_trees(ds).len() ==> wf_node(#[trigger] present_trees(ds)[i]),
    decreases ds.len(),
{
    if ds.len() > 0 {
        assert(trees_wf(ds.drop_first())) by {
            assert(forall|i: int| 0 <= i < ds.drop_first().len() ==> #[trigger] ds.drop_first()[i]
                == ds[i + 1]);
        }
        lemma_present_trees_wf(ds.drop_first());
        let rest = present_trees(ds.drop_first());
        assert forall|i: int| 0 <= i < present_trees(ds).len() implies wf_node(
            #[trigger] present_trees(ds)[i],
        ) by {
            match ds[0] {
                Some(t) => {
                    if i == 0 {
                        assert(present_trees(ds)[0] == t);
                    } else {
                        assert(present_trees(ds)[i] == rest[i - 1]);
                    }
                },
                None => {
                    assert(present_trees(ds)[i] == rest[i]);
                },
            }
        }
    }
}

proof fn lemma_fill_from_wf(fb: Seq<Option<Node>>, have: int, min_disks: int)
    requires
        trees_wf(fb),
    ensures
        forall|i: int|
            0 <= i < fill_from(fb, have, min_disks).len() ==> wf_node(
                #[trigger] fill_from(fb, have, min_disks)[i],
            ),
    decreases fb.len(),
{
    if fb.len() > 0 && have < min_disks {
        assert(trees_wf(fb.drop_first())) by {
            assert(forall|i: int| 0 <= i < fb.drop_first().len() ==> #[trigger] fb.drop_first()[i]
                == fb[i + 1]);
        }
        match fb[0] {
            None => {
                lemma_fill_from_wf(fb.drop_first(), have, min_disks);
                assert(fill_from(fb, have, min_disks) == fill_from(
                    fb.drop_first(),
                    have,
                    min_disks,
                ));
            },
            Some(t) => {
                lemma_fill_from_wf(fb.drop_first(), have + 1, min_disks);
                let rest = fill_from(fb.drop_first(), have + 1, min_disks);
                assert forall|i: int| 0 <= i < fill_from(fb, have, min_disks).len() implies
                    wf_node(#[trigger] fill_from(fb, have, min_disks)[i]) by {
                    if i == 0 {
                        assert(fill_from(fb, have, min_disks)[0] == t);
                    } else {
                        assert(fill_from(fb, have, min_disks)[i] == rest[i - 1]);
                    }
                }
            },
        }
    }
}

/// Global ordering of a listing call: across the agreed and partial
/// events combined, names are strictly ascending — a smaller name is
/// never emitted after a larger one, and no name is classified twice.
pub proof fn lemma_list_events_sorted(
    ds: Seq<Option<Node>>,
    fb: Seq<Option<Node>>,
    opts: ListOptions,
)
    requires
        trees_wf(ds),
        trees_wf(fb),
    ensures
        forall|a: int, b: int|
            0 <= a < b < list_events(ds, fb, opts).len() ==> lex_lt(
                event_name(#[trigger] list_events(ds, fb, opts)[a]),
                event_name(#[trigger] list_events(ds, fb, opts)[b]),
            ),
{
    let sel = selected_trees(ds, fb, opts.min_disks as int);
    let ss = list_streams(ds, fb, opts);
    lemma_present_trees_wf(ds);
    lemma_fill_from_wf(fb, present_trees(ds).len() as int, opts.min_disks as int);
    assert forall|i: int| 0 <= i < ss.len() implies entries_sorted(#[trigger] ss[i].rem) by {
        assert(ss[i] == disk_stream_view(sel[i], opts));
        assert(wf_node(sel[i])) by {
            if i < present_trees(ds).len() {
                assert(sel[i] == present_trees(ds)[i]);
            } else {
                assert(sel[i] == fill_from(
                    fb,
                    present_trees(ds).len() as int,
                    opts.min_disks as int,
                )[i - present_trees(ds).len()]);
            }
        }
        lemma_disk_stream_sorted(sel[i], opts);
    }
    assert(streams_sorted(ss));
    lemma_merge_events_sorted(ss, opts.min_disks as int);
}

/// Whether `name` starts with the bytes of `p`.
fn bytes_has_prefix(name: &Vec<u8>, p: &Vec<u8>) -> (r: bool)
    ensures
        r == p@.is_prefix_of(name@),
{
    if p.len() > name.len() {
        proof {
            assert(!p@.is_prefix_of(name@));
        }
        return false;
    }
    let mut i: usize = 0;
    while i < p.len()
        invariant
            i <= p.len(),
            p.len() <= name.len(),
            name@.subrange(0, i as int) =~= p@.subrange(0, i as int),
        decreases p.len() - i,
    {
        if name[i] != p[i] {
            proof {
                assert(name@.subrange(0, p@.len() as int)[i as int] != p@[i as int]);
            }
            return false;
        }
        proof {
            assert(name@.subrange(0, i + 1) =~= p@.subrange(0, i + 1)) by {
                assert forall|j: int| 0 <= j < i + 1 implies #[trigger] name@.subrange(
                    0,
                    i + 1,
                )[j] == p@.subrange(0, i + 1)[j] by {
                    if j < i {
                        assert(name@.subrange(0, i as int)[j] == p@.subrange(0, i as int)[j]);
                    }
                }
            }
        }
        i = i + 1;
    }
    proof {
        assert(name@.subrange(0, p@.len() as int) =~= p@) by {
            assert(p@.subrange(0, p@.len() as int) =~= p@);
        }
    }
    true
}

/// Read a whole stream back, keeping only names with the given prefix;
/// rejected entries are fast-forwarded over without materialising their
/// payloads.
fn read_filtered(rd: &mut FrameReader, prefix: &Option<Vec<u8>>) -> (out: Vec<Entry>)
    ensures
        entry_views(out@) == spec_filter_prefix(old(rd).remaining(), opt_bytes_view(*prefix)),
{
    let mut out: Vec<Entry> = Vec::new();
    let ghost rem0 = rd.remaining();
    loop
        invariant
            entry_views(out@) + spec_filter_prefix(rd.remaining(), opt_bytes_view(*prefix))
                =~= spec_filter_prefix(rem0, opt_bytes_view(*prefix)),
        ensures
            rd.remaining().len() == 0,
            entry_views(out@) =~= spec_filter_prefix(rem0, opt_bytes_view(*prefix)),
        decreases rd.remaining().len(),
    {
        let ghost pre = rd.remaining();
        match rd.peek() {
            Peeked::Item(e) => {
                let keep = match prefix {
                    None => true,
                    Some(p) => bytes_has_prefix(&e.name, p),
                };
                let ghost out_pre = out@;
                if keep {
                    out.push(e);
                    proof {
                        assert(entry_views(out@) =~= entry_views(out_pre) + seq![pre[0]]);
                    }
                }
                rd.skip(1);
                proof {
                    assert(rd.remaining() =~= pre.drop_first());
                }
            },
            Peeked::End => {
                break;
            },
            Peeked::Malformed => {
                break;
            },
        }
    }
    out
}

/// Build the stream one disk contributes: walk the tree under the
/// request, frame the entries through the transport, read them back with
/// the prefix filter, and apply the per-disk cap.
fn make_disk_stream(root: &Node, opts: &ListOptions) -> (d: DiskStream)
    requires
        wf_node(*root),
    ensures
        d@ == disk_stream_view(*root, *opts),
        d.wf(),
{
    let cursor = match &opts.cursor {
        None => None,
        Some(c) => Some(copy_bytes(c)),
    };
    let req = WalkRequest { recursive: opts.recursive, cursor, limit: None };
    let entries = walk(root, &req);
    proof {
        assert(entry_views(entries@) == disk_entries(*root, *opts));
    }
    let ghost evs = entry_views(entries@);
    proof {
        assert forall|i: int| 0 <= i < evs.len() implies crate::codec::entry_fits(
            #[trigger] evs[i],
        ) by {
            let e = entries@[i];
            assert(vstd::std_specs::vec::spec_vec_len(&e.name) == e.name@.len());
            match e.metadata {
                Some(mm) => {
                    assert(vstd::std_specs::vec::spec_vec_len(&mm) == mm@.len());
                },
                None => {
                },
            }
        }
    }
    let bytes = encode_stream(&entries);
    proof {
        assert(bytes@.subrange(0, bytes@.len() as int) =~= bytes@);
        lemma_stream_round_trip(bytes@, 0, evs);
    }
    let mut rd = FrameReader::new(bytes);
    let mut filtered = read_filtered(&mut rd, &opts.filter_prefix);
    let ghost fvs = entry_views(filtered@);
    let lim = opts.per_disk_limit;
    if lim >= 0 {
        let lu = lim as u64;
        if lu < filtered.len() as u64 {
            let ghost pre = entry_views(filtered@);
            filtered.truncate(lu as usize);
            proof {
                assert(entry_views(filtered@) =~= pre.take(lim as int));
            }
        }
    }
    let d = DiskStream { entries: filtered, pos: 0, broken: false };
    proof {
        assert(d@.rem =~= entry_views(d.entries@));
        assert(d@.rem =~= spec_disk_cap(fvs, lim));
        assert(d@ =~= disk_stream_view(*root, *opts));
    }
    d
}

/// The events and the outcome of one listing call.
pub open spec fn list_events(
    ds: Seq<Option<Node>>,
    fb: Seq<Option<Node>>,
    opts: ListOptions,
) -> Seq<EventV> {
    spec_merge(list_streams(ds, fb, opts), opts.min_disks as int)
}

/// One listing call over in-memory disk trees: fan out, merge, classify.
///
/// Offline slots (`None`) are skipped without error. When fewer present
/// primary disks than `min_disks` exist, fallback disks fill in one at a
/// time; if the threshold still cannot be met the call fails immediately
/// with `QuorumUnmet`, emitting no event at all. Otherwise every distinct
/// discovered name yields exactly one event, in ascending name order, and
/// the call finishes with `Success`.
pub fn list_path(
    disks: &Vec<Option<Node>>,
    fallback: &Vec<Option<Node>>,
    opts: &ListOptions,
) -> (r: (Vec<MergeEvent>, MergeOutcome))
    requires
        trees_wf(disks@),
        trees_wf(fallback@),
    ensures
        (r.1 == MergeOutcome::QuorumUnmet) == (selected_trees(
            disks@,
            fallback@,
            opts.min_disks as int,
        ).len() < opts.min_disks),
        r.1 == MergeOutcome::QuorumUnmet ==> r.0@.len() == 0,
        r.1 != MergeOutcome::QuorumUnmet ==> r.1 == MergeOutcome::Success && event_views(r.0@)
            == list_events(disks@, fallback@, *opts),
{
    let ghost gsel = selected_trees(disks@, fallback@, opts.min_disks as int);
    let ghost gstreams = list_streams(disks@, fallback@, *opts);
    let mut streams: Vec<DiskStream> = Vec::new();
    let mut i: usize = 0;
    proof {
        assert(disks@.skip(0) =~= disks@);
    }
    while i < disks.len()
        invariant
            i <= disks@.len(),
            trees_wf(disks@),
            forall|k: int| 0 <= k < streams@.len() ==> (#[trigger] streams@[k]).wf(),
            sviews(streams@) + present_trees(disks@.skip(i as int)).map(
                |k: int, t: Node| disk_stream_view(t, *opts),
            ) =~= present_trees(disks@).map(|k: int, t: Node| disk_stream_view(t, *opts)),
        decreases disks@.len() - i,
    {
        proof {
            assert(disks@.skip(i as int)[0] == disks@[i as int]);
            assert(disks@.skip(i as int).drop_first() =~= disks@.skip(i as int + 1));
        }
        let ghost spre = streams@;
        match &disks[i] {
            None => {
                proof {
                    assert(present_trees(disks@.skip(i as int)) =~= present_trees(
                        disks@.skip(i as int + 1),
                    ));
                }
            },
            Some(t) => {
                let d = make_disk_stream(t, opts);
                streams.push(d);
                proof {
                    assert(sviews(streams@) =~= sviews(spre).push(d@));
                    assert(present_trees(disks@.skip(i as int)).map(
                        |k: int, t2: Node| disk_stream_view(t2, *opts),
                    ) =~= seq![disk_stream_view(disks@[i as int]->0, *opts)] + present_trees(
                        disks@.skip(i as int + 1),
                    ).map(|k: int, t2: Node| disk_stream_view(t2, *opts)));
                }
            },
        }
        i = i + 1;
    }
    proof {
        assert(present_trees(disks@.skip(disks@.len() as int)) =~= Seq::<Node>::empty());
        assert(sviews(streams@) =~= present_trees(disks@).map(
            |k: int, t: Node| disk_stream_view(t, *opts),
        ));
    }
    let prim_count = streams.len();
    let ghost gprim = present_trees(disks@);
    let mut j: usize = 0;
    proof {
        assert(fallback@.skip(0) =~= fallback@);
    }
    while j < fallback.len() && streams.len() < opts.min_disks
        invariant
            j <= fallback@.len(),
            trees_wf(fallback@),
            streams@.len() >= gprim.len(),
            forall|k: int| 0 <= k < streams@.len() ==> (#[trigger] streams@[k]).wf(),
            sviews(streams@) + fill_from(
                fallback@.skip(j as int),
                streams@.len() as int,
                opts.min_disks as int,
            ).map(|k: int, t: Node| disk_stream_view(t, *opts)) =~= gprim.map(
                |k: int, t: Node| disk_stream_view(t, *opts),
            ) + fill_from(fallback@, gprim.len() as int, opts.min_disks as int).map(
                |k: int, t: Node| disk_stream_view(t, *opts),
            ),
        decreases fallback@.len() - j,
    {
        proof {
            assert(fallback@.skip(j as int)[0] == fallback@[j as int]);
            assert(fallback@.skip(j as int).drop_first() =~= fallback@.skip(j as int + 1));
        }
        let ghost spre = streams@;
        match &fallback[j] {
            None => {
                proof {
                    assert(fill_from(
                        fallback@.skip(j as int),
                        spre.len() as int,
                        opts.min_disks as int,
                    ) =~= fill_from(
                        fallback@.skip(j as int + 1),
                        spre.len() as int,
                        opts.min_disks as int,
                    ));
                }
            },
            Some(t) => {
                let d = make_disk_stream(t, opts);
                streams.push(d);
                proof {
                    assert(sviews(streams@) =~= sviews(spre).push(d@));
                    assert(fill_from(
                        fallback@.skip(j as int),
                        spre.len() as int,
                        opts.min_disks as int,
                    ).map(|k: int, t2: Node| disk_stream_view(t2, *opts)) =~= seq![
                        disk_stream_view(fallback@[j as int]->0, *opts),
                    ] + fill_from(
                        fallback@.skip(j as int + 1),
                        spre.len() as int + 1,
                        opts.min_disks as int,
                    ).map(|k: int, t2: Node| disk_stream_view(t2, *opts)));
                }
            },
        }
        j = j + 1;
    }
    proof {
        if j == fallback@.len() {
            assert(fallback@.skip(j as int) =~= Seq::<Option<Node>>::empty());
        }
        assert(fill_from(
            fallback@.skip(j as int),
            streams@.len() as int,
            opts.min_disks as int,
        ) =~= Seq::<Node>::empty());
        let g = |k: int, t: Node| disk_stream_view(t, *opts);
        let fl = fill_from(fallback@, gprim.len() as int, opts.min_disks as int);
        assert(gprim.map(g) + fl.map(g) =~= gsel.map(g)) by {
            assert forall|x: int| 0 <= x < gsel.len() implies (gprim.map(g) + fl.map(g))[x]
                == gsel.map(g)[x] by {
                assert(gsel[x] == (gprim + fl)[x]);
                if x < gprim.len() {
                    assert((gprim.map(g) + fl.map(g))[x] == gprim.map(g)[x]);
                } else {
                    assert((gprim.map(g) + fl.map(g))[x] == fl.map(g)[x - gprim.len()]);
                }
            }
        }
        assert(sviews(streams@) =~= gsel.map(g));
        assert(streams@.len() == gsel.len());
    }
    if streams.len() < opts.min_disks {
        return (Vec::new(), MergeOutcome::QuorumUnmet);
    }
    let mut engine = MergeState::new(streams, opts.min_disks);
    engine.run();
    proof {
        assert(event_views(engine.events@) =~= spec_merge(gstreams, opts.min_disks as int));
    }
    let outcome = engine.finish();
    (engine.events, outcome)
}

} // verus!
