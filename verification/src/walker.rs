//! Single-disk walker.
//!
//! Given one walk request against one disk's directory tree, produce the
//! strictly name-ordered, duplicate-free sequence of entries for that tree:
//! an entry with the raw metadata bytes for every object directory, nothing
//! at all for an empty plain directory, and — depending on the recursive
//! flag — either a descent with the directory name prepended as prefix or
//! a single directory-marker entry for a non-empty plain directory. The
//! resumption cursor drops every entry whose name is at or before it, and
//! the result cap truncates the tail.

use vstd::prelude::*;
use crate::entry::{entries_sorted, entry_views, Entry, EntryV, SLASH, copy_bytes};
use crate::order::{lex_lt, lex_le, compare_names, NameCmp, lemma_lex_irrefl, lemma_lex_trans,
    lemma_prefix_lt, lemma_lex_append_left, lemma_lex_common_prefix};
use crate::tree::{child_key, is_empty_plain_dir, valid_name, wf_children, wf_node, Child, Node};

verus! {

/// Per-disk scan configuration, immutable for the duration of one walk.
pub struct WalkRequest {
    /// Descend into sub-prefixes, or report one level only.
    pub recursive: bool,
    /// Resumption cursor: every entry whose name is at or before this is
    /// skipped before anything is emitted.
    pub cursor: Option<Vec<u8>>,
    /// Result cap: emission stops once this many entries were produced.
    pub limit: Option<usize>,
}

/// The entries one child contributes, in order.
pub open spec fn spec_walk_child(c: Child, prefix: Seq<u8>, recursive: bool) -> Seq<EntryV>
    decreases c,
{
    match c.node {
        Node::Object { meta } => seq![
            EntryV { name: prefix + c.name@, metadata: Some(meta@) },
        ],
        Node::Branch { children } => {
            if children@.len() == 0 {
                seq![]
            } else if recursive {
                spec_walk_children(children@, prefix + c.name@ + seq![SLASH], recursive)
            } else {
                seq![EntryV { name: prefix + c.name@ + seq![SLASH], metadata: None }]
            }
        },
    }
}

/// The entries a sibling list contributes, in list order.
pub open spec fn spec_walk_children(cs: Seq<Child>, prefix: Seq<u8>, recursive: bool) -> Seq<
    EntryV,
>
    decreases cs,
{
    if cs.len() == 0 {
        seq![]
    } else {
        spec_walk_child(cs[0], prefix, recursive) + spec_walk_children(
            cs.drop_first(),
            prefix,
            recursive,
        )
    }
}

/// The full, uncut walk output of a subtree rooted at a plain directory.
pub open spec fn spec_walk(n: Node, prefix: Seq<u8>, recursive: bool) -> Seq<EntryV> {
    match n {
        Node::Object { .. } => seq![],
        Node::Branch { children } => spec_walk_children(children@, prefix, recursive),
    }
}

/// The entries left after dropping every name at or before the cursor.
pub open spec fn spec_after_cursor(s: Seq<EntryV>, cursor: Option<Seq<u8>>) -> Seq<EntryV>
    decreases s.len(),
{
    match cursor {
        None => s,
        Some(cur) => {
            if s.len() == 0 {
                seq![]
            } else {
                (if lex_lt(cur, s[0].name) {
                    seq![s[0]]
                } else {
                    seq![]
                }) + spec_after_cursor(s.drop_first(), cursor)
            }
        },
    }
}

/// The entries left after applying the result cap.
pub open spec fn spec_capped(s: Seq<EntryV>, limit: Option<usize>) -> Seq<EntryV> {
    match limit {
        None => s,
        Some(k) => if s.len() <= k {
            s
        } else {
            s.take(k as int)
        },
    }
}

/// View of an optional cursor.
pub open spec fn cursor_view(c: Option<Vec<u8>>) -> Option<Seq<u8>> {
    match c {
        None => None,
        Some(v) => Some(v@),
    }
}

/// Everything a walk of `root` under `req` emits, in order.
pub open spec fn spec_walk_request(root: Node, req: WalkRequest) -> Seq<EntryV> {
    spec_capped(
        spec_after_cursor(spec_walk(root, Seq::empty(), req.recursive), cursor_view(req.cursor)),
        req.limit,
    )
}

/// Emit all entries of the subtree under `n`, with `prefix` prepended to
/// every name, appending to `out`.
fn walk_node(n: &Node, prefix: &Vec<u8>, recursive: bool, out: &mut Vec<Entry>)
    ensures
        entry_views(final(out)@) == entry_views(old(out)@) + spec_walk(*n, prefix@, recursive),
    decreases *n,
{
    match n {
        Node::Object { .. } => {
            proof {
                assert(entry_views(out@) =~= entry_views(out@) + spec_walk(
                    *n,
                    prefix@,
                    recursive,
                ));
            }
        },
        Node::Branch { children } => {
            let ghost cs = children@;
            let ghost out0 = out@;
            let mut i: usize = 0;
            proof {
                assert(cs.skip(0) =~= cs);
            }
            while i < children.len()
                invariant
                    i <= children.len(),
                    cs == children@,
                    *n == (Node::Branch { children: *children }),
                    entry_views(out0) + spec_walk_children(cs, prefix@, recursive) =~= entry_views(
                        out@,
                    ) + spec_walk_children(cs.skip(i as int), prefix@, recursive),
                decreases children.len() - i,
            {
                proof {
                    assert(cs.skip(i as int)[0] == cs[i as int]);
                    assert(cs.skip(i as int).drop_first() =~= cs.skip(i as int + 1));
                }
                let ghost out_pre = out@;
                let c = &children[i];
                match &c.node {
                    Node::Object { meta } => {
                        let mut name = copy_bytes(prefix);
                        name.extend_from_slice(c.name.as_slice());
                        let e = Entry { name, metadata: Some(copy_bytes(meta)) };
                        proof {
                            assert(cs[i as int].node == Node::Object { meta: *meta });
                            assert(e@.name == prefix@ + cs[i as int].name@);
                            assert(e@ == spec_walk_child(cs[i as int], prefix@, recursive)[0]);
                        }
                        out.push(e);
                        proof {
                            assert(entry_views(out@) =~= entry_views(out_pre) + spec_walk_child(
                                cs[i as int],
                                prefix@,
                                recursive,
                            ));
                        }
                    },
                    Node::Branch { children: sub } => {
                        if sub.len() == 0 {
                            proof {
                                assert(entry_views(out@) =~= entry_views(out_pre)
                                    + spec_walk_child(cs[i as int], prefix@, recursive));
                            }
                        } else if recursive {
                            let mut p2 = copy_bytes(prefix);
                            p2.extend_from_slice(c.name.as_slice());
                            p2.push(SLASH);
                            proof {
                                assert(p2@ =~= prefix@ + c.name@ + seq![SLASH]);
                                assert(decreases_to!(*n => c.node)) by {
                                    assert(decreases_to!(*n => n->Branch_children));
                                    assert(decreases_to!(n->Branch_children
                                        => n->Branch_children@));
                                    assert(decreases_to!(n->Branch_children@
                                        => n->Branch_children@[i as int]));
                                    assert(decreases_to!(n->Branch_children@[i as int]
                                        => n->Branch_children@[i as int].node));
                                    assert(c.node == n->Branch_children@[i as int].node);
                                }
                            }
                            walk_node(&c.node, &p2, recursive, out);
                            proof {
                                assert(entry_views(out@) =~= entry_views(out_pre)
                                    + spec_walk_child(cs[i as int], prefix@, recursive));
                            }
                        } else {
                            let mut name = copy_bytes(prefix);
                            name.extend_from_slice(c.name.as_slice());
                            name.push(SLASH);
                            let e = Entry { name, metadata: None };
                            proof {
                                assert(e@.name =~= prefix@ + c.name@ + seq![SLASH]);
                                assert(e@ == spec_walk_child(cs[i as int], prefix@, recursive)[0]);
                            }
                            out.push(e);
                            proof {
                                assert(entry_views(out@) =~= entry_views(out_pre)
                                    + spec_walk_child(cs[i as int], prefix@, recursive));
                            }
                        }
                    },
                }
                proof {
                    assert(entry_views(out0) + spec_walk_children(cs, prefix@, recursive)
                        =~= entry_views(out@) + spec_walk_children(
                        cs.skip(i as int + 1),
                        prefix@,
                        recursive,
                    ));
                }
                i = i + 1;
            }
            proof {
                assert(cs.skip(children@.len() as int) =~= Seq::<Child>::empty());
                assert(entry_views(out@) =~= entry_views(out0) + spec_walk(*n, prefix@, recursive));
            }
        },
    }
}

proof fn lemma_prefix_concat(p: Seq<u8>, x: Seq<u8>)
    ensures
        p.is_prefix_of(p + x),
{
    assert((p + x).subrange(0, p.len() as int) =~= p);
}

proof fn lemma_prefix_trans(a: Seq<u8>, b: Seq<u8>, c: Seq<u8>)
    requires
        a.is_prefix_of(b),
        b.is_prefix_of(c),
    ensures
        a.is_prefix_of(c),
{
    assert(c.subrange(0, a.len() as int) =~= a) by {
        assert forall|j: int| 0 <= j < a.len() implies #[trigger] c.subrange(0, a.len() as int)[j]
            == a[j] by {
            assert(b.subrange(0, a.len() as int)[j] == a[j]);
            assert(c.subrange(0, b.len() as int)[j] == b[j]);
        }
    }
}

proof fn lemma_prefix_le(a: Seq<u8>, b: Seq<u8>)
    requires
        a.is_prefix_of(b),
    ensures
        lex_le(a, b),
{
    if a.len() < b.len() {
        lemma_prefix_lt(a, b);
    } else {
        assert(b.subrange(0, b.len() as int) =~= b);
    }
}

proof fn lemma_prefix_split(p: Seq<u8>, n: Seq<u8>)
    requires
        p.is_prefix_of(n),
    ensures
        n =~= p + n.skip(p.len() as int),
{
    assert forall|j: int| 0 <= j < n.len() implies n[j] == (p + n.skip(p.len() as int))[j] by {
        if j < p.len() {
            assert(n.subrange(0, p.len() as int)[j] == p[j]);
        }
    }
}

/// A plain directory's key — its name with the trailing separator — is
/// never a prefix of a smaller-or-larger sibling key, because sibling
/// names cannot contain the separator.
proof fn lemma_dir_key_not_prefix(c0: Child, c1: Child)
    requires
        valid_name(c0.name@),
        valid_name(c1.name@),
        c0.node is Branch,
        lex_lt(child_key(c0), child_key(c1)),
    ensures
        !child_key(c0).is_prefix_of(child_key(c1)),
{
    let k0 = child_key(c0);
    let k1 = child_key(c1);
    let l0 = c0.name@.len() as int;
    if k0.is_prefix_of(k1) {
        assert(k0[l0] == SLASH);
        assert(k1[l0] == SLASH) by {
            assert(k1.subrange(0, k0.len() as int)[l0] == k0[l0]);
        }
        match c1.node {
            Node::Object { .. } => {
                assert(k1 == c1.name@);
                assert(c1.name@[l0] != SLASH);
            },
            Node::Branch { .. } => {
                let l1 = c1.name@.len() as int;
                if l0 < l1 {
                    assert(k1[l0] == c1.name@[l0]);
                    assert(c1.name@[l0] != SLASH);
                } else {
                    assert(k0.len() == k1.len());
                    assert(k1.subrange(0, k1.len() as int) =~= k1);
                    assert(k0 == k1);
                    lemma_lex_irrefl(k0);
                }
            },
        }
    }
}

/// Every name a sibling list emits carries the walk prefix.
pub open spec fn all_have_prefix(s: Seq<EntryV>, p: Seq<u8>) -> bool {
    forall|i: int| 0 <= i < s.len() ==> p.is_prefix_of(#[trigger] s[i].name)
}

/// Shape of one child's contribution: every emitted name extends the
/// child's keyed position, and an object or marker child emits exactly
/// that position.
pub open spec fn child_shape(s: Seq<EntryV>, p: Seq<u8>, c: Child) -> bool {
    forall|i: int| 0 <= i < s.len() ==> ((p + child_key(c)).is_prefix_of(#[trigger] s[i].name) && (
    c.node is Branch || s[i].name == p + child_key(c)))
}

proof fn lemma_wf_children_drop(cs: Seq<Child>)
    requires
        wf_children(cs),
        cs.len() > 0,
    ensures
        wf_children(cs.drop_first()),
{
    let rest = cs.drop_first();
    assert forall|i: int| 0 <= i < rest.len() implies valid_name(#[trigger] rest[i].name@)
        && wf_node(rest[i].node) by {
        assert(rest[i] == cs[i + 1]);
    }
    assert forall|i: int, j: int| 0 <= i < j < rest.len() implies lex_lt(
        child_key(#[trigger] rest[i]),
        child_key(#[trigger] rest[j]),
    ) by {
        assert(rest[i] == cs[i + 1]);
        assert(rest[j] == cs[j + 1]);
    }
}

proof fn lemma_walk_child_props(c: Child, p: Seq<u8>, r: bool)
    requires
        valid_name(c.name@),
        wf_node(c.node),
    ensures
        entries_sorted(spec_walk_child(c, p, r)),
        child_shape(spec_walk_child(c, p, r), p, c),
    decreases c,
{
    let out = spec_walk_child(c, p, r);
    match c.node {
        Node::Object { .. } => {
            assert((p + child_key(c)).is_prefix_of(out[0].name)) by {
                assert((p + child_key(c)).subrange(0, (p + child_key(c)).len() as int) =~= (p
                    + child_key(c)));
            }
        },
        Node::Branch { children } => {
            if children@.len() == 0 {
            } else if r {
                let p2 = p + c.name@ + seq![SLASH];
                lemma_walk_children_props(children@, p2, r);
                assert(p2 =~= p + child_key(c));
                assert forall|i: int| 0 <= i < out.len() implies (p + child_key(c)).is_prefix_of(
                    #[trigger] out[i].name,
                ) by {
                    assert(p2.is_prefix_of(out[i].name));
                }
            } else {
                assert(out[0].name =~= p + child_key(c));
                assert((p + child_key(c)).is_prefix_of(out[0].name)) by {
                    assert((p + child_key(c)).subrange(0, (p + child_key(c)).len() as int) =~= (p
                        + child_key(c)));
                }
            }
        },
    }
}

proof fn lemma_walk_children_props(cs: Seq<Child>, p: Seq<u8>, r: bool)
    requires
        wf_children(cs),
    ensures
        entries_sorted(spec_walk_children(cs, p, r)),
        all_have_prefix(spec_walk_children(cs, p, r), p),
        cs.len() > 0 ==> forall|i: int|
            0 <= i < spec_walk_children(cs, p, r).len() ==> lex_le(
                p + child_key(cs[0]),
                #[trigger] spec_walk_children(cs, p, r)[i].name,
            ),
    decreases cs,
{
    if cs.len() > 0 {
        let c0 = cs[0];
        let rest = cs.drop_first();
        let k0 = child_key(c0);
        let a = spec_walk_child(c0, p, r);
        let b = spec_walk_children(rest, p, r);
        let out = spec_walk_children(cs, p, r);
        assert(out == a + b);
        lemma_walk_child_props(c0, p, r);
        lemma_wf_children_drop(cs);
        lemma_walk_children_props(rest, p, r);
        lemma_prefix_concat(p, k0);
        // Every name from the first child sits strictly below the keyed
        // position of the next sibling.
        assert forall|i: int| 0 <= i < a.len() && rest.len() > 0 implies lex_lt(
            #[trigger] a[i].name,
            p + child_key(cs[1]),
        ) by {
            let k1 = child_key(cs[1]);
            assert(rest[0] == cs[1]);
            assert(lex_lt(k0, k1));
            if c0.node is Branch && a[i].name != p + k0 {
                lemma_dir_key_not_prefix(c0, cs[1]);
                lemma_prefix_split(p + k0, a[i].name);
                let suffix = a[i].name.skip((p + k0).len() as int);
                lemma_lex_append_left(k0, k1, suffix);
                lemma_lex_common_prefix(p, k0 + suffix, k1);
                assert(p + (k0 + suffix) =~= (p + k0) + suffix);
            } else {
                assert(a[i].name == p + k0);
                lemma_lex_common_prefix(p, k0, k1);
            }
        }
        // Sortedness of the concatenation.
        assert forall|i: int, j: int| 0 <= i < j < out.len() implies lex_lt(
            out[i].name,
            out[j].name,
        ) by {
            if j < a.len() {
                assert(out[i] == a[i] && out[j] == a[j]);
            } else if i >= a.len() {
                assert(out[i] == b[i - a.len()] && out[j] == b[j - a.len()]);
            } else {
                assert(out[i] == a[i] && out[j] == b[j - a.len()]);
                assert(rest.len() > 0);
                let k1 = child_key(cs[1]);
                assert(rest[0] == cs[1]);
                assert(lex_lt(a[i].name, p + k1));
                assert(lex_le(p + k1, b[j - a.len()].name));
                if p + k1 == b[j - a.len()].name {
                } else {
                    lemma_lex_trans(a[i].name, p + k1, b[j - a.len()].name);
                }
            }
        }
        // Prefix and lower bound for every element.
        assert forall|i: int| 0 <= i < out.len() implies p.is_prefix_of(#[trigger] out[i].name)
            && lex_le(p + k0, out[i].name) by {
            if i < a.len() {
                assert(out[i] == a[i]);
                assert((p + k0).is_prefix_of(a[i].name));
                lemma_prefix_trans(p, p + k0, a[i].name);
                lemma_prefix_le(p + k0, a[i].name);
            } else {
                assert(out[i] == b[i - a.len()]);
                assert(rest.len() > 0);
                let k1 = child_key(cs[1]);
                assert(rest[0] == cs[1]);
                assert(lex_le(p + k1, b[i - a.len()].name));
                assert(lex_lt(k0, k1));
                lemma_lex_common_prefix(p, k0, k1);
                if p + k1 == b[i - a.len()].name {
                } else {
                    lemma_lex_trans(p + k0, p + k1, b[i - a.len()].name);
                }
            }
        }
    }
}

/// The full walk output of a well-formed tree is strictly ascending in
/// name order, hence duplicate-free.
pub proof fn lemma_walk_output_sorted(n: Node, p: Seq<u8>, r: bool)
    requires
        wf_node(n),
    ensures
        entries_sorted(spec_walk(n, p, r)),
{
    match n {
        Node::Object { .. } => {
        },
        Node::Branch { children } => {
            lemma_walk_children_props(children@, p, r);
        },
    }
}

proof fn lemma_after_cursor_bound(s: Seq<EntryV>, cur: Seq<u8>, x: Seq<u8>)
    requires
        forall|i: int| 0 <= i < s.len() ==> lex_lt(x, #[trigger] s[i].name),
    ensures
        forall|i: int|
            0 <= i < spec_after_cursor(s, Some(cur)).len() ==> lex_lt(
                x,
                #[trigger] spec_after_cursor(s, Some(cur))[i].name,
            ),
    decreases s.len(),
{
    if s.len() > 0 {
        assert(forall|i: int| 0 <= i < s.drop_first().len() ==> lex_lt(
            x,
            #[trigger] s.drop_first()[i].name,
        )) by {
            assert(forall|i: int| 0 <= i < s.drop_first().len() ==> #[trigger] s.drop_first()[i]
                == s[i + 1]);
        }
        lemma_after_cursor_bound(s.drop_first(), cur, x);
    }
}

/// Dropping names at or before the cursor keeps the stream sorted.
pub proof fn lemma_after_cursor_sorted(s: Seq<EntryV>, cursor: Option<Seq<u8>>)
    requires
        entries_sorted(s),
    ensures
        entries_sorted(spec_after_cursor(s, cursor)),
    decreases s.len(),
{
    match cursor {
        None => {
        },
        Some(cur) => {
            if s.len() > 0 {
                let rest = s.drop_first();
                assert(entries_sorted(rest)) by {
                    assert(forall|i: int| 0 <= i < rest.len() ==> #[trigger] rest[i] == s[i + 1]);
                }
                lemma_after_cursor_sorted(rest, cursor);
                assert(forall|i: int| 0 <= i < rest.len() ==> lex_lt(
                    s[0].name,
                    #[trigger] rest[i].name,
                )) by {
                    assert(forall|i: int| 0 <= i < rest.len() ==> #[trigger] rest[i] == s[i + 1]);
                }
                lemma_after_cursor_bound(rest, cur, s[0].name);
                let tail_out = spec_after_cursor(rest, Some(cur));
                let out = spec_after_cursor(s, Some(cur));
                if lex_lt(cur, s[0].name) {
                    assert(out == seq![s[0]] + tail_out);
                    assert forall|i: int, j: int| 0 <= i < j < out.len() implies lex_lt(
                        out[i].name,
                        out[j].name,
                    ) by {
                        if i == 0 {
                            assert(out[j] == tail_out[j - 1]);
                        } else {
                            assert(out[i] == tail_out[i - 1] && out[j] == tail_out[j - 1]);
                        }
                    }
                } else {
                    assert(out =~= tail_out);
                }
            }
        },
    }
}

/// The capped stream is sorted whenever the stream is.
pub proof fn lemma_capped_sorted(s: Seq<EntryV>, limit: Option<usize>)
    requires
        entries_sorted(s),
    ensures
        entries_sorted(spec_capped(s, limit)),
{
    match limit {
        None => {
        },
        Some(k) => {
            if s.len() > k {
                assert(forall|i: int| 0 <= i < k ==> #[trigger] s.take(k as int)[i] == s[i]);
            }
        },
    }
}

/// Walk output under any request is strictly ascending in name order:
/// the invariant every consumer of a single-disk stream relies on.
pub proof fn lemma_walk_request_sorted(root: Node, req: WalkRequest)
    requires
        wf_node(root),
    ensures
        entries_sorted(spec_walk_request(root, req)),
{
    lemma_walk_output_sorted(root, Seq::empty(), req.recursive);
    lemma_after_cursor_sorted(
        spec_walk(root, Seq::empty(), req.recursive),
        cursor_view(req.cursor),
    );
    lemma_capped_sorted(
        spec_after_cursor(spec_walk(root, Seq::empty(), req.recursive), cursor_view(req.cursor)),
        req.limit,
    );
}

/// The walker is deterministic: for a fixed tree and request its output is
/// one fixed sequence, identical in name order and metadata across runs.
pub proof fn lemma_walk_deterministic(
    root: Node,
    req: WalkRequest,
    out1: Seq<EntryV>,
    out2: Seq<EntryV>,
)
    requires
        out1 == spec_walk_request(root, req),
        out2 == spec_walk_request(root, req),
    ensures
        out1 == out2,
{
}

/// An empty plain directory yields no entry at all, whatever the
/// recursive flag: it is neither reported nor descended into.
pub proof fn lemma_empty_dir_yields_nothing(c: Child, p: Seq<u8>, r: bool)
    requires
        is_empty_plain_dir(c),
    ensures
        spec_walk_child(c, p, r) == Seq::<EntryV>::empty(),
{
    assert(spec_walk_child(c, p, r) =~= Seq::<EntryV>::empty());
}

/// Removing an empty plain directory from a sibling list leaves the walk
/// output untouched: such a directory contributes nothing to the result.
pub proof fn lemma_empty_dir_removed(cs: Seq<Child>, i: int, p: Seq<u8>, r: bool)
    requires
        0 <= i < cs.len(),
        is_empty_plain_dir(cs[i]),
    ensures
        spec_walk_children(cs.remove(i), p, r) == spec_walk_children(cs, p, r),
    decreases cs.len(),
{
    if i == 0 {
        assert(cs.remove(0) =~= cs.drop_first());
        lemma_empty_dir_yields_nothing(cs[0], p, r);
        assert(spec_walk_children(cs, p, r) =~= spec_walk_children(cs.drop_first(), p, r));
    } else {
        assert(cs.remove(i)[0] == cs[0]);
        assert(cs.remove(i).drop_first() =~= cs.drop_first().remove(i - 1));
        assert(cs.drop_first()[i - 1] == cs[i]);
        lemma_empty_dir_removed(cs.drop_first(), i - 1, p, r);
        assert(spec_walk_children(cs.remove(i), p, r) =~= spec_walk_children(cs, p, r));
    }
}

/// Drop every entry whose name is at or before the cursor.
fn apply_cursor(entries: Vec<Entry>, cursor: &Option<Vec<u8>>) -> (out: Vec<Entry>)
    ensures
        entry_views(out@) == spec_after_cursor(
            entry_views(entries@),
            cursor_view(*cursor),
        ),
{
    match cursor {
        None => entries,
        Some(cur) => {
            let ghost evs = entry_views(entries@);
            let mut out: Vec<Entry> = Vec::new();
            let mut i: usize = 0;
            proof {
                assert(evs.skip(0) =~= evs);
            }
            while i < entries.len()
                invariant
                    i <= entries.len(),
                    evs == entry_views(entries@),
                    evs.len() == entries@.len(),
                    entry_views(out@) + spec_after_cursor(evs.skip(i as int), Some(cur@))
                        =~= spec_after_cursor(evs, Some(cur@)),
                decreases entries.len() - i,
            {
                proof {
                    assert(evs.skip(i as int)[0] == evs[i as int]);
                    assert(evs.skip(i as int).drop_first() =~= evs.skip(i as int + 1));
                }
                let ghost out_pre = out@;
                let keep = match compare_names(cur, &entries[i].name) {
                    NameCmp::Before => true,
                    _ => false,
                };
                if keep {
                    let e = crate::entry::copy_entry(&entries[i]);
                    out.push(e);
                    proof {
                        assert(entry_views(out@) =~= entry_views(out_pre) + seq![evs[i as int]]);
                    }
                } else {
                    proof {
                        assert(entry_views(out@) =~= entry_views(out_pre) + Seq::<
                            EntryV,
                        >::empty());
                    }
                }
                i = i + 1;
            }
            proof {
                assert(evs.skip(entries@.len() as int) =~= Seq::<EntryV>::empty());
                assert(entry_views(out@) =~= spec_after_cursor(evs, Some(cur@)));
            }
            out
        },
    }
}

/// Walk one disk's tree under a request: emit, in strictly ascending name
/// order, one entry per object (with its raw metadata bytes) and per
/// non-empty plain directory when not recursive, skipping names at or
/// before the cursor and stopping at the result cap.
pub fn walk(root: &Node, req: &WalkRequest) -> (out: Vec<Entry>)
    ensures
        entry_views(out@) == spec_walk_request(*root, *req),
{
    let mut all: Vec<Entry> = Vec::new();
    let empty_prefix: Vec<u8> = Vec::new();
    walk_node(root, &empty_prefix, req.recursive, &mut all);
    proof {
        assert(entry_views(all@) =~= spec_walk(*root, Seq::empty(), req.recursive));
    }
    let mut cut = apply_cursor(all, &req.cursor);
    match req.limit {
        None => cut,
        Some(k) => {
            if cut.len() > k {
                let ghost pre = entry_views(cut@);
                cut.truncate(k);
                proof {
                    assert(entry_views(cut@) =~= pre.take(k as int));
                }
                cut
            } else {
                cut
            }
        },
    }
}

} // verus!
