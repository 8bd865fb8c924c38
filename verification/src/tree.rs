use vstd::prelude::*;

verus! {

/// One registry key as read in memory: the raw outcome of enumerating its
/// value entries and its direct children.
///
/// An element is `None` when the corresponding registry read failed (a value
/// entry whose name or data did not decode, or a child key that could not be
/// enumerated or opened read-only); the dumper skips such elements silently.
pub struct RegBranch {
    /// Value entries in enumeration order: `Some((name, display_text))`
    /// for an entry that decoded, `None` for one that failed.
    pub entries: Vec<Option<(String, String)>>,
    /// Direct child keys in enumeration order: `Some((name, subtree))`
    /// for a child that opened, `None` for one that failed.
    pub children: Vec<Option<(String, RegBranch)>>,
}

/// Mathematical model of a `RegBranch`: names and data as character
/// sequences, children as a sequence of child models.
pub ghost struct BranchModel {
    pub entries: Seq<Option<(Seq<char>, Seq<char>)>>,
    pub children: Seq<Option<(Seq<char>, BranchModel)>>,
}

pub open spec fn entry_model(e: Option<(String, String)>) -> Option<(Seq<char>, Seq<char>)> {
    match e {
        Some(p) => Some((p.0@, p.1@)),
        None => None,
    }
}

pub open spec fn child_model(c: Option<(String, RegBranch)>) -> Option<(Seq<char>, BranchModel)>
    decreases c,
{
    match c {
        Some(p) => Some((p.0@, branch_model(p.1))),
        None => None,
    }
}

pub open spec fn branch_model(b: RegBranch) -> BranchModel
    decreases b,
{
    BranchModel {
        entries: b.entries@.map_values(|e: Option<(String, String)>| entry_model(e)),
        children: children_model(b.children@),
    }
}

pub open spec fn children_model(cs: Seq<Option<(String, RegBranch)>>) -> Seq<
    Option<(Seq<char>, BranchModel)>,
>
    decreases cs,
{
    if cs.len() == 0 {
        Seq::empty()
    } else {
        seq![child_model(cs[0])] + children_model(cs.drop_first())
    }
}

/// `children_model` is the pointwise image of the child list.
pub proof fn lemma_children_model_index(cs: Seq<Option<(String, RegBranch)>>)
    ensures
        children_model(cs).len() == cs.len(),
        forall|i: int|
            0 <= i < cs.len() ==> children_model(cs)[i] == child_model(#[trigger] cs[i]),
    decreases cs,
{
    if cs.len() > 0 {
        lemma_children_model_index(cs.drop_first());
        assert forall|i: int| 0 <= i < cs.len() implies children_model(cs)[i] == child_model(
            #[trigger] cs[i],
        ) by {
            if i > 0 {
                assert(cs.drop_first()[i - 1] == cs[i]);
            }
        }
    }
}

} // verus!
