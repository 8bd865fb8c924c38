use vstd::prelude::*;
use crate::tree::BranchModel;
use crate::tree::RegBranch;
use crate::tree::branch_model;
use crate::tree::child_model;
use crate::tree::children_model;
use crate::tree::entry_model;
use crate::tree::lemma_children_model_index;

verus! {

/// The document a dump produces. `Empty` is the degenerate placeholder for a
/// key with no readable values and no enumerable children; `Branch` carries
/// the decoded value entries and the dumped children, each in enumeration
/// order. A serializer renders a `Branch` with its `values` member only when
/// the values are non-empty and its `subkeys` member only when the subkeys
/// are non-empty, and renders `Empty` as an informational placeholder.
pub enum DumpNode {
    Empty,
    Branch { values: Vec<(String, String)>, subkeys: Vec<(String, DumpNode)> },
}

/// Mathematical model of a `DumpNode`.
pub ghost enum NodeModel {
    Empty,
    Branch { values: Seq<(Seq<char>, Seq<char>)>, subkeys: Seq<(Seq<char>, NodeModel)> },
}

pub open spec fn node_model(n: DumpNode) -> NodeModel
    decreases n,
{
    match n {
        DumpNode::Empty => NodeModel::Empty,
        DumpNode::Branch { values, subkeys } => NodeModel::Branch {
            values: values@.map_values(|p: (String, String)| (p.0@, p.1@)),
            subkeys: subkeys_model(subkeys@),
        },
    }
}

pub open spec fn subkeys_model(sks: Seq<(String, DumpNode)>) -> Seq<(Seq<char>, NodeModel)>
    decreases sks,
{
    if sks.len() == 0 {
        Seq::empty()
    } else {
        seq![(sks[0].0@, node_model(sks[0].1))] + subkeys_model(sks.drop_first())
    }
}

/// The decoded value entries of a branch, in enumeration order: an entry
/// that failed to decode is skipped, never reported as an error.
pub open spec fn spec_values(es: Seq<Option<(Seq<char>, Seq<char>)>>) -> Seq<
    (Seq<char>, Seq<char>),
>
    decreases es,
{
    if es.len() == 0 {
        Seq::empty()
    } else {
        match es[0] {
            Some(p) => seq![p] + spec_values(es.drop_first()),
            None => spec_values(es.drop_first()),
        }
    }
}

/// What dumping a branch yields: the decoded values, the recursively dumped
/// children that opened (in enumeration order, skipping the failed ones),
/// and the placeholder when both are empty.
pub open spec fn spec_dump(b: BranchModel) -> NodeModel
    decreases b,
{
    let values = spec_values(b.entries);
    let subkeys = spec_dump_children(b.children);
    if values.len() == 0 && subkeys.len() == 0 {
        NodeModel::Empty
    } else {
        NodeModel::Branch { values, subkeys }
    }
}

pub open spec fn spec_dump_children(cs: Seq<Option<(Seq<char>, BranchModel)>>) -> Seq<
    (Seq<char>, NodeModel),
>
    decreases cs,
{
    if cs.len() == 0 {
        Seq::empty()
    } else {
        let rest = spec_dump_children(cs.drop_first());
        match cs[0] {
            Some(c) => seq![(c.0, spec_dump(c.1))] + rest,
            None => rest,
        }
    }
}

proof fn lemma_spec_values_push(
    es: Seq<Option<(Seq<char>, Seq<char>)>>,
    x: Option<(Seq<char>, Seq<char>)>,
)
    ensures
        spec_values(es.push(x)) == spec_values(es) + (match x {
            Some(p) => seq![p],
            None => Seq::<(Seq<char>, Seq<char>)>::empty(),
        }),
    decreases es,
{
    if es.len() == 0 {
        assert(es.push(x).drop_first() =~= es);
        assert(es.push(x)[0] == x);
        match x {
            Some(p) => {
                assert(spec_values(es.push(x)) =~= spec_values(es) + seq![p]);
            },
            None => {
                assert(spec_values(es.push(x)) =~= spec_values(es));
            },
        }
    } else {
        assert(es.push(x).drop_first() =~= es.drop_first().push(x));
        assert(es.push(x)[0] == es[0]);
        lemma_spec_values_push(es.drop_first(), x);
        match es[0] {
            Some(p) => {
                assert(spec_values(es.push(x)) =~= spec_values(es) + (match x {
                    Some(q) => seq![q],
                    None => Seq::<(Seq<char>, Seq<char>)>::empty(),
                }));
            },
            None => {},
        }
    }
}

proof fn lemma_spec_dump_children_push(
    cs: Seq<Option<(Seq<char>, BranchModel)>>,
    x: Option<(Seq<char>, BranchModel)>,
)
    ensures
        spec_dump_children(cs.push(x)) == spec_dump_children(cs) + (match x {
            Some(c) => seq![(c.0, spec_dump(c.1))],
            None => Seq::<(Seq<char>, NodeModel)>::empty(),
        }),
    decreases cs,
{
    if cs.len() == 0 {
        assert(cs.push(x).drop_first() =~= cs);
        assert(cs.push(x)[0] == x);
        match x {
            Some(c) => {
                assert(spec_dump_children(cs.push(x)) =~= spec_dump_children(cs) + seq![
                    (c.0, spec_dump(c.1)),
                ]);
            },
            None => {
                assert(spec_dump_children(cs.push(x)) =~= spec_dump_children(cs));
            },
        }
    } else {
        assert(cs.push(x).drop_first() =~= cs.drop_first().push(x));
        assert(cs.push(x)[0] == cs[0]);
        lemma_spec_dump_children_push(cs.drop_first(), x);
        match cs[0] {
            Some(c) => {
                assert(spec_dump_children(cs.push(x)) =~= spec_dump_children(cs) + (match x {
                    Some(d) => seq![(d.0, spec_dump(d.1))],
                    None => Seq::<(Seq<char>, NodeModel)>::empty(),
                }));
            },
            None => {},
        }
    }
}

proof fn lemma_subkeys_model_push(sks: Seq<(String, DumpNode)>, x: (String, DumpNode))
    ensures
        subkeys_model(sks.push(x)) == subkeys_model(sks).push((x.0@, node_model(x.1))),
    decreases sks,
{
    if sks.len() == 0 {
        assert(sks.push(x).drop_first() =~= sks);
        assert(sks.push(x)[0] == x);
        assert(subkeys_model(sks.push(x)) =~= subkeys_model(sks).push((x.0@, node_model(x.1))));
    } else {
        assert(sks.push(x).drop_first() =~= sks.drop_first().push(x));
        assert(sks.push(x)[0] == sks[0]);
        lemma_subkeys_model_push(sks.drop_first(), x);
        assert(subkeys_model(sks.push(x)) =~= subkeys_model(sks).push((x.0@, node_model(x.1))));
    }
}

proof fn lemma_spec_values_all_none(es: Seq<Option<(Seq<char>, Seq<char>)>>)
    requires
        forall|i: int| 0 <= i < es.len() ==> #[trigger] es[i] is None,
    ensures
        spec_values(es).len() == 0,
    decreases es,
{
    if es.len() > 0 {
        assert forall|i: int| 0 <= i < es.drop_first().len() implies #[trigger] es.drop_first()[i]
            is None by {
            assert(es.drop_first()[i] == es[i + 1]);
        }
        lemma_spec_values_all_none(es.drop_first());
    }
}

proof fn lemma_spec_dump_children_all_none(cs: Seq<Option<(Seq<char>, BranchModel)>>)
    requires
        forall|i: int| 0 <= i < cs.len() ==> #[trigger] cs[i] is None,
    ensures
        spec_dump_children(cs).len() == 0,
    decreases cs,
{
    if cs.len() > 0 {
        assert forall|i: int| 0 <= i < cs.drop_first().len() implies #[trigger] cs.drop_first()[i]
            is None by {
            assert(cs.drop_first()[i] == cs[i + 1]);
        }
        lemma_spec_dump_children_all_none(cs.drop_first());
    }
}

/// Law: a branch in which no value entry decoded and no child key opened —
/// in particular one with no entries and no children at all — dumps to the
/// placeholder, never to an empty document.
pub proof fn lemma_dump_placeholder(b: BranchModel)
    requires
        forall|i: int| 0 <= i < b.entries.len() ==> #[trigger] b.entries[i] is None,
        forall|i: int| 0 <= i < b.children.len() ==> #[trigger] b.children[i] is None,
    ensures
        spec_dump(b) == NodeModel::Empty,
{
    lemma_spec_values_all_none(b.entries);
    lemma_spec_dump_children_all_none(b.children);
}

/// When every entry of a branch decoded, the values are exactly the
/// entries, one each, in enumeration order.
proof fn lemma_spec_values_all_some(es: Seq<Option<(Seq<char>, Seq<char>)>>)
    requires
        forall|i: int| 0 <= i < es.len() ==> #[trigger] es[i] is Some,
    ensures
        spec_values(es).len() == es.len(),
        forall|i: int| 0 <= i < es.len() ==> spec_values(es)[i] == #[trigger] es[i]->0,
    decreases es,
{
    if es.len() > 0 {
        assert forall|i: int| 0 <= i < es.drop_first().len() implies #[trigger] es.drop_first()[i]
            is Some by {
            assert(es.drop_first()[i] == es[i + 1]);
        }
        lemma_spec_values_all_some(es.drop_first());
        assert forall|i: int| 0 <= i < es.len() implies spec_values(es)[i] == #[trigger] es[i]->0
            by {
            if i > 0 {
                assert(es.drop_first()[i - 1] == es[i]);
            }
        }
    }
}

/// Law: a branch with at least one decoded value entry, all of whose entries
/// decoded, and no children, dumps to a document holding exactly those
/// values — one per entry, in enumeration order — and no subkeys.
pub proof fn lemma_dump_values_only(b: BranchModel)
    requires
        b.entries.len() > 0,
        forall|i: int| 0 <= i < b.entries.len() ==> #[trigger] b.entries[i] is Some,
        b.children.len() == 0,
    ensures
        spec_dump(b) is Branch,
        spec_dump(b)->Branch_values.len() == b.entries.len(),
        forall|i: int|
            0 <= i < b.entries.len() ==> spec_dump(b)->Branch_values[i] == #[trigger] b.entries[i]->0,
        spec_dump(b)->Branch_subkeys.len() == 0,
{
    lemma_spec_values_all_some(b.entries);
}

proof fn lemma_spec_dump_children_all_some(cs: Seq<Option<(Seq<char>, BranchModel)>>)
    requires
        forall|i: int| 0 <= i < cs.len() ==> #[trigger] cs[i] is Some,
    ensures
        spec_dump_children(cs).len() == cs.len(),
        forall|i: int|
            0 <= i < cs.len() ==> spec_dump_children(cs)[i] == (
                ((#[trigger] cs[i])->0).0,
                spec_dump((cs[i]->0).1),
            ),
    decreases cs,
{
    if cs.len() > 0 {
        assert forall|i: int| 0 <= i < cs.drop_first().len() implies #[trigger] cs.drop_first()[i]
            is Some by {
            assert(cs.drop_first()[i] == cs[i + 1]);
        }
        lemma_spec_dump_children_all_some(cs.drop_first());
        assert forall|i: int| 0 <= i < cs.len() implies spec_dump_children(cs)[i] == (
            ((#[trigger] cs[i])->0).0,
            spec_dump((cs[i]->0).1),
        ) by {
            if i > 0 {
                assert(cs.drop_first()[i - 1] == cs[i]);
            }
        }
    }
}

/// Law: when every child of a branch opened, the subkeys hold each child
/// under its own name with that child's own dump, in enumeration order —
/// recursion depth follows tree depth exactly, one document level per key
/// level.
pub proof fn lemma_dump_subkeys(b: BranchModel)
    requires
        b.children.len() > 0,
        forall|i: int| 0 <= i < b.children.len() ==> #[trigger] b.children[i] is Some,
    ensures
        spec_dump(b) is Branch,
        spec_dump(b)->Branch_subkeys.len() == b.children.len(),
        forall|i: int|
            0 <= i < b.children.len() ==> spec_dump(b)->Branch_subkeys[i] == (
                ((#[trigger] b.children[i])->0).0,
                spec_dump((b.children[i]->0).1),
            ),
{
    lemma_spec_dump_children_all_some(b.children);
}

/// Law: the dump of a branch is a function of the branch alone, so two
/// consecutive dumps of an unmodified branch produce structurally identical
/// documents.
pub proof fn lemma_dump_idempotent(b1: RegBranch, b2: RegBranch, n1: DumpNode, n2: DumpNode)
    requires
        branch_model(b1) == branch_model(b2),
        node_model(n1) == spec_dump(branch_model(b1)),
        node_model(n2) == spec_dump(branch_model(b2)),
    ensures
        node_model(n1) == node_model(n2),
{
}

/// Law: an entry that failed to decode leaves no trace: the values of a
/// branch are those of the same branch with the failed entry removed, so one
/// failed and one decoded entry yield exactly the decoded one, not an error.
pub proof fn lemma_values_skip_failed(es: Seq<Option<(Seq<char>, Seq<char>)>>, i: int)
    requires
        0 <= i < es.len(),
        es[i] is None,
    ensures
        spec_values(es) == spec_values(es.remove(i)),
    decreases es,
{
    if i == 0 {
        assert(es.remove(0) =~= es.drop_first());
    } else {
        assert(es.remove(i).drop_first() =~= es.drop_first().remove(i - 1));
        assert(es.drop_first()[i - 1] == es[i]);
        lemma_values_skip_failed(es.drop_first(), i - 1);
        assert(es.remove(i)[0] == es[0]);
    }
}

/// `subkeys_model` is the pointwise image of the subkey list.
proof fn lemma_subkeys_model_index(sks: Seq<(String, DumpNode)>)
    ensures
        subkeys_model(sks).len() == sks.len(),
        forall|i: int|
            0 <= i < sks.len() ==> subkeys_model(sks)[i] == (
                (#[trigger] sks[i]).0@,
                node_model(sks[i].1),
            ),
    decreases sks,
{
    if sks.len() > 0 {
        lemma_subkeys_model_index(sks.drop_first());
        assert forall|i: int| 0 <= i < sks.len() implies subkeys_model(sks)[i] == (
            (#[trigger] sks[i]).0@,
            node_model(sks[i].1),
        ) by {
            if i > 0 {
                assert(sks.drop_first()[i - 1] == sks[i]);
            }
        }
    }
}

/// Whether two documents are structurally identical: the same shape, names
/// and value texts throughout.
#[verifier::loop_isolation(false)]
pub fn node_eq(a: &DumpNode, b: &DumpNode) -> (r: bool)
    ensures
        r == (node_model(*a) == node_model(*b)),
    decreases *a,
{
    match a {
        DumpNode::Empty => match b {
            DumpNode::Empty => true,
            DumpNode::Branch { .. } => false,
        },
        DumpNode::Branch { values: va, subkeys: sa } => match b {
            DumpNode::Empty => false,
            DumpNode::Branch { values: vb, subkeys: sb } => {
                let ghost mva = va@.map_values(|p: (String, String)| (p.0@, p.1@));
                let ghost mvb = vb@.map_values(|p: (String, String)| (p.0@, p.1@));
                proof {
                    lemma_subkeys_model_index(sa@);
                    lemma_subkeys_model_index(sb@);
                    assert(*a == (DumpNode::Branch { values: *va, subkeys: *sa }));
                    assert(*b == (DumpNode::Branch { values: *vb, subkeys: *sb }));
                    assert(node_model(*a) == (NodeModel::Branch {
                        values: mva,
                        subkeys: subkeys_model(sa@),
                    }));
                    assert(node_model(*b) == (NodeModel::Branch {
                        values: mvb,
                        subkeys: subkeys_model(sb@),
                    }));
                    assert(mva.len() == va@.len());
                    assert(mvb.len() == vb@.len());
                }
                if va.len() != vb.len() {
                    return false;
                }
                if sa.len() != sb.len() {
                    return false;
                }
                let mut i: usize = 0;
                while i < va.len()
                    invariant
                        i <= va.len(),
                        va.len() == vb.len(),
                        mva == va@.map_values(|p: (String, String)| (p.0@, p.1@)),
                        mvb == vb@.map_values(|p: (String, String)| (p.0@, p.1@)),
                        forall|k: int| 0 <= k < i ==> mva[k] == mvb[k],
                    decreases va.len() - i,
                {
                    let pa = &va[i];
                    let pb = &vb[i];
                    if !(pa.0 == pb.0) || !(pa.1 == pb.1) {
                        proof {
                            assert(mva[i as int] != mvb[i as int]);
                        }
                        return false;
                    }
                    i = i + 1;
                }
                proof {
                    assert(mva =~= mvb);
                }
                let mut j: usize = 0;
                while j < sa.len()
                    invariant
                        j <= sa.len(),
                        sa.len() == sb.len(),
                        subkeys_model(sa@).len() == sa@.len(),
                        subkeys_model(sb@).len() == sb@.len(),
                        forall|k: int|
                            0 <= k < sa.len() ==> subkeys_model(sa@)[k] == (
                                (#[trigger] sa@[k]).0@,
                                node_model(sa@[k].1),
                            ),
                        forall|k: int|
                            0 <= k < sb.len() ==> subkeys_model(sb@)[k] == (
                                (#[trigger] sb@[k]).0@,
                                node_model(sb@[k].1),
                            ),
                        forall|k: int| 0 <= k < j ==> subkeys_model(sa@)[k] == subkeys_model(sb@)[k],
                        *a == (DumpNode::Branch { values: *va, subkeys: *sa }),
                    decreases sa.len() - j,
                {
                    let ca = &sa[j];
                    let cb = &sb[j];
                    if !(ca.0 == cb.0) {
                        proof {
                            assert(subkeys_model(sa@)[j as int] != subkeys_model(sb@)[j as int]);
                        }
                        return false;
                    }
                    proof {
                        assert(decreases_to!(*a => *sa));
                        assert(decreases_to!(*sa => sa@));
                        assert(decreases_to!(sa@ => sa@[j as int]));
                    }
                    if !node_eq(&ca.1, &cb.1) {
                        proof {
                            assert(subkeys_model(sa@)[j as int] != subkeys_model(sb@)[j as int]);
                        }
                        return false;
                    }
                    j = j + 1;
                }
                proof {
                    assert(subkeys_model(sa@) =~= subkeys_model(sb@));
                }
                true
            },
        },
    }
}

/// Dump one registry branch into a document: keep every entry that decoded
/// and every child that opened, in enumeration order; per-entry failures are
/// skipped silently, so the dump itself never fails. A branch with no
/// readable values and no enumerable children yields the placeholder.
pub fn dump(b: &RegBranch) -> (r: DumpNode)
    ensures
        node_model(r) == spec_dump(branch_model(*b)),
    decreases *b,
{
    let ghost bm = branch_model(*b);

    let mut values: Vec<(String, String)> = Vec::new();
    let mut i: usize = 0;
    while i < b.entries.len()
        invariant
            i <= b.entries.len(),
            bm == branch_model(*b),
            values@.map_values(|p: (String, String)| (p.0@, p.1@)) == spec_values(
                bm.entries.take(i as int),
            ),
        decreases b.entries.len() - i,
    {
        proof {
            assert(bm.entries[i as int] == entry_model(b.entries@[i as int]));
            assert(bm.entries.take(i + 1 as int) =~= bm.entries.take(i as int).push(
                bm.entries[i as int],
            ));
            lemma_spec_values_push(bm.entries.take(i as int), bm.entries[i as int]);
        }
        match &b.entries[i] {
            Some(p) => {
                let name = p.0.clone();
                let data = p.1.clone();
                values.push((name, data));
                proof {
                    assert(values@.map_values(|p: (String, String)| (p.0@, p.1@)) =~= spec_values(
                        bm.entries.take(i + 1 as int),
                    ));
                }
            },
            None => {
                proof {
                    assert(values@.map_values(|p: (String, String)| (p.0@, p.1@)) =~= spec_values(
                        bm.entries.take(i + 1 as int),
                    ));
                }
            },
        }
        i = i + 1;
    }
    proof {
        assert(bm.entries.take(b.entries@.len() as int) =~= bm.entries);
    }

    let mut subkeys: Vec<(String, DumpNode)> = Vec::new();
    let mut j: usize = 0;
    while j < b.children.len()
        invariant
            j <= b.children.len(),
            bm == branch_model(*b),
            values@.map_values(|p: (String, String)| (p.0@, p.1@)) == spec_values(bm.entries),
            subkeys_model(subkeys@) == spec_dump_children(bm.children.take(j as int)),
        decreases b.children.len() - j,
    {
        proof {
            lemma_children_model_index(b.children@);
            assert(bm.children[j as int] == child_model(b.children@[j as int]));
            assert(bm.children.take(j + 1 as int) =~= bm.children.take(j as int).push(
                bm.children[j as int],
            ));
            lemma_spec_dump_children_push(bm.children.take(j as int), bm.children[j as int]);
        }
        match &b.children[j] {
            Some(c) => {
                proof {
                    assert(decreases_to!(*b => b.children));
                    assert(decreases_to!(b.children => b.children@));
                    assert(decreases_to!(b.children@ => b.children@[j as int]));
                }
                let child = dump(&c.1);
                let name = c.0.clone();
                proof {
                    lemma_subkeys_model_push(subkeys@, (name, child));
                }
                subkeys.push((name, child));
            },
            None => {},
        }
        j = j + 1;
    }
    proof {
        lemma_children_model_index(b.children@);
        assert(bm.children.take(b.children@.len() as int) =~= bm.children);
    }

    if values.len() == 0 && subkeys.len() == 0 {
        proof {
            assert(spec_values(bm.entries).len() == 0);
            assert(spec_dump_children(bm.children).len() == 0);
        }
        DumpNode::Empty
    } else {
        DumpNode::Branch { values, subkeys }
    }
}

} // verus!
