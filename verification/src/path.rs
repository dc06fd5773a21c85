//! The address/navigation engine: the single movable "active point" of the
//! viewer, the canonical depth-first enumeration of all addressable points,
//! next/previous movement, repair after structural changes, and the action
//! bound to each point.

use vstd::prelude::*;

use crate::displayvalue::member_get;
use crate::displayvalue::member_node_views;
use crate::displayvalue::node_views;
use crate::displayvalue::wf_node;
use crate::displayvalue::DisplayValue;
use crate::displayvalue::NodeView;
use crate::strorder::str_lt;

verus! {

broadcast use vstd::std_specs::vec::group_vec_axioms;

/// An address inside an object node.
pub enum ObjectPath {
    Toggle,
    Item(String, Box<Path>),
}

/// An address inside an array node.
pub enum ArrayPath {
    Toggle,
    Shrink,
    Grow,
    Item(usize, Box<Path>),
}

/// The address of one addressable point, mirroring the node shape on the
/// way down: a bare scalar, or a point of an object or array.
pub enum Path {
    Scalar,
    Object(ObjectPath),
    Array(ArrayPath),
}

/// Mathematical model of a [`Path`].
#[verifier::ext_equal]
pub enum PathView {
    Scalar,
    ObjToggle,
    ObjItem(Seq<char>, Box<PathView>),
    ArrToggle,
    ArrShrink,
    ArrGrow,
    ArrItem(int, Box<PathView>),
}

pub open spec fn path_view(p: Path) -> PathView
    decreases p,
{
    match p {
        Path::Scalar => PathView::Scalar,
        Path::Object(ObjectPath::Toggle) => PathView::ObjToggle,
        Path::Object(ObjectPath::Item(k, sub)) => PathView::ObjItem(
            k@,
            Box::new(path_view(*sub)),
        ),
        Path::Array(ArrayPath::Toggle) => PathView::ArrToggle,
        Path::Array(ArrayPath::Shrink) => PathView::ArrShrink,
        Path::Array(ArrayPath::Grow) => PathView::ArrGrow,
        Path::Array(ArrayPath::Item(i, sub)) => PathView::ArrItem(
            i as int,
            Box::new(path_view(*sub)),
        ),
    }
}

impl View for Path {
    type V = PathView;

    open spec fn view(&self) -> PathView {
        path_view(*self)
    }
}

/// The canonical depth-first enumeration of the addressable points of a
/// tree. A collapsed container contributes only its own toggle; an
/// extended object contributes its toggle and then its members' points in
/// key order; an extended array contributes its toggle, the points of its
/// first `num_extended` items, then its shrink and grow controls.
pub open spec fn points(t: NodeView) -> Seq<PathView>
    decreases t, 0int, 0int,
{
    match t {
        NodeView::Scalar { .. } => seq![PathView::Scalar],
        NodeView::Object { members, extended, .. } => {
            if !extended {
                seq![PathView::ObjToggle]
            } else {
                seq![PathView::ObjToggle] + member_points(members)
            }
        },
        NodeView::Array { values, extended, num_extended, .. } => {
            if !extended {
                seq![PathView::ArrToggle]
            } else {
                seq![PathView::ArrToggle] + item_points(values, num_extended) + seq![
                    PathView::ArrShrink,
                    PathView::ArrGrow,
                ]
            }
        },
    }
}

pub open spec fn member_points(ms: Seq<(Seq<char>, NodeView)>) -> Seq<PathView>
    decreases ms, 1int, 0int,
{
    if ms.len() == 0 {
        Seq::empty()
    } else {
        member_points(ms.drop_last()) + points(ms.last().1).map_values(
            |p: PathView| PathView::ObjItem(ms.last().0, Box::new(p)),
        )
    }
}

pub open spec fn item_points(vs: Seq<NodeView>, n: int) -> Seq<PathView>
    decreases vs, 1int, n,
{
    if n <= 0 || n > vs.len() {
        Seq::empty()
    } else {
        item_points(vs, n - 1) + points(vs[n - 1]).map_values(
            |p: PathView| PathView::ArrItem(n - 1, Box::new(p)),
        )
    }
}

/// The first addressable point of any tree: the scalar itself, or the
/// containing node's toggle.
pub open spec fn first_point(t: NodeView) -> PathView {
    match t {
        NodeView::Scalar { .. } => PathView::Scalar,
        NodeView::Object { .. } => PathView::ObjToggle,
        NodeView::Array { .. } => PathView::ArrToggle,
    }
}

/// A point exists in the tree: its path reaches a node of the matching
/// shape and every container it crosses is extended and wide enough.
pub open spec fn valid_path(t: NodeView, p: PathView) -> bool
    decreases p,
{
    match (t, p) {
        (NodeView::Scalar { .. }, PathView::Scalar) => true,
        (NodeView::Object { .. }, PathView::ObjToggle) => true,
        (NodeView::Object { members, extended, .. }, PathView::ObjItem(k, sub)) => {
            &&& extended
            &&& member_get(members, k) is Some
            &&& valid_path(member_get(members, k)->Some_0, *sub)
        },
        (NodeView::Array { .. }, PathView::ArrToggle) => true,
        (NodeView::Array { extended, .. }, PathView::ArrShrink) => extended,
        (NodeView::Array { extended, .. }, PathView::ArrGrow) => extended,
        (NodeView::Array { values, extended, num_extended, .. }, PathView::ArrItem(i, sub)) => {
            &&& extended
            &&& 0 <= i < num_extended
            &&& i < values.len()
            &&& valid_path(values[i], *sub)
        },
        (_, _) => false,
    }
}

/// Walk the address from the root; at the first segment that is no longer
/// structurally valid, snap to the current container's own toggle (or, for
/// a scalar, the scalar point itself).
pub open spec fn repair_path(t: NodeView, p: PathView) -> PathView
    decreases p,
{
    match (t, p) {
        (NodeView::Scalar { .. }, _) => PathView::Scalar,
        (NodeView::Object { members, extended, .. }, PathView::ObjItem(k, sub)) => {
            if extended && member_get(members, k) is Some {
                PathView::ObjItem(k, Box::new(repair_path(member_get(members, k)->Some_0, *sub)))
            } else {
                PathView::ObjToggle
            }
        },
        (NodeView::Object { .. }, _) => PathView::ObjToggle,
        (NodeView::Array { values, extended, num_extended, .. }, PathView::ArrItem(i, sub)) => {
            if extended && 0 <= i < num_extended && i < values.len() {
                PathView::ArrItem(i, Box::new(repair_path(values[i], *sub)))
            } else {
                PathView::ArrToggle
            }
        },
        (NodeView::Array { extended, .. }, PathView::ArrShrink) => {
            if extended {
                PathView::ArrShrink
            } else {
                PathView::ArrToggle
            }
        },
        (NodeView::Array { extended, .. }, PathView::ArrGrow) => {
            if extended {
                PathView::ArrGrow
            } else {
                PathView::ArrToggle
            }
        },
        (NodeView::Array { .. }, _) => PathView::ArrToggle,
    }
}

/// Repair never fails: whatever the old address was, the repaired address
/// exists in the tree.
pub proof fn lemma_repair_valid(t: NodeView, p: PathView)
    ensures
        valid_path(t, repair_path(t, p)),
    decreases p,
{
    match (t, p) {
        (NodeView::Object { members, extended, .. }, PathView::ObjItem(k, sub)) => {
            if extended && member_get(members, k) is Some {
                lemma_repair_valid(member_get(members, k)->Some_0, *sub);
            }
        },
        (NodeView::Array { values, extended, num_extended, .. }, PathView::ArrItem(i, sub)) => {
            if extended && 0 <= i < num_extended && i < values.len() {
                lemma_repair_valid(values[i], *sub);
            }
        },
        (_, _) => {},
    }
}

/// Repairing an address that is still valid leaves it unchanged.
pub proof fn lemma_repair_identity(t: NodeView, p: PathView)
    requires
        valid_path(t, p),
    ensures
        repair_path(t, p) == p,
    decreases p,
{
    match (t, p) {
        (NodeView::Object { members, extended, .. }, PathView::ObjItem(k, sub)) => {
            lemma_repair_identity(member_get(members, k)->Some_0, *sub);
        },
        (NodeView::Array { values, extended, num_extended, .. }, PathView::ArrItem(i, sub)) => {
            lemma_repair_identity(values[i], *sub);
        },
        (_, _) => {},
    }
}

/// The first index at which key `k` occurs, or `-1`.
pub open spec fn member_index_of(ms: Seq<(Seq<char>, NodeView)>, k: Seq<char>) -> int
    decreases ms,
{
    if ms.len() == 0 {
        -1
    } else if ms[0].0 == k {
        0
    } else if member_index_of(ms.drop_first(), k) < 0 {
        -1
    } else {
        member_index_of(ms.drop_first(), k) + 1
    }
}

pub proof fn lemma_member_index_of(ms: Seq<(Seq<char>, NodeView)>, k: Seq<char>)
    ensures
        -1 <= member_index_of(ms, k) < ms.len(),
        member_index_of(ms, k) >= 0 ==> ms[member_index_of(ms, k)].0 == k,
        forall|j: int|
            0 <= j < ms.len() && (member_index_of(ms, k) == -1 || j < member_index_of(ms, k))
                ==> (#[trigger] ms[j]).0 != k,
        member_get(ms, k) == if member_index_of(ms, k) >= 0 {
            Option::Some(ms[member_index_of(ms, k)].1)
        } else {
            Option::<NodeView>::None
        },
    decreases ms,
{
    if ms.len() > 0 && ms[0].0 != k {
        lemma_member_index_of(ms.drop_first(), k);
        assert(forall|j: int|
            0 <= j < ms.drop_first().len() ==> #[trigger] ms.drop_first()[j] == ms[j + 1]);
        assert forall|j: int|
            0 <= j < ms.len() && (member_index_of(ms, k) == -1 || j < member_index_of(ms, k))
                implies (#[trigger] ms[j]).0 != k by {
            if j > 0 {
                assert(ms.drop_first()[j - 1] == ms[j]);
            }
        }
    }
}

/// The action bound to the addressed point, if any: a toggle flips the
/// container's fold state, grow and shrink adjust an array's visible count
/// within bounds, and a scalar point has no action. `None` means the
/// action is not applicable and the tree is left untouched.
pub open spec fn act_on(t: NodeView, p: PathView) -> Option<NodeView>
    decreases p,
{
    match (t, p) {
        (
            NodeView::Object { description, members, extended, description_changed },
            PathView::ObjToggle,
        ) => Option::Some(
            NodeView::Object { description, members, extended: !extended, description_changed },
        ),
        (
            NodeView::Object { description, members, extended, description_changed },
            PathView::ObjItem(k, sub),
        ) => {
            let idx = member_index_of(members, k);
            if idx >= 0 {
                match act_on(members[idx].1, *sub) {
                    Option::Some(c2) => Option::Some(
                        NodeView::Object {
                            description,
                            members: members.update(idx, (k, c2)),
                            extended,
                            description_changed,
                        },
                    ),
                    Option::None => Option::None,
                }
            } else {
                Option::None
            }
        },
        (
            NodeView::Array {
                description,
                values,
                extended,
                num_extended,
                length_changed,
                description_changed,
            },
            PathView::ArrToggle,
        ) => Option::Some(
            NodeView::Array {
                description,
                values,
                extended: !extended,
                num_extended,
                length_changed,
                description_changed,
            },
        ),
        (
            NodeView::Array {
                description,
                values,
                extended,
                num_extended,
                length_changed,
                description_changed,
            },
            PathView::ArrShrink,
        ) => {
            if num_extended > 0 {
                Option::Some(
                    NodeView::Array {
                        description,
                        values,
                        extended,
                        num_extended: num_extended - 1,
                        length_changed,
                        description_changed,
                    },
                )
            } else {
                Option::None
            }
        },
        (
            NodeView::Array {
                description,
                values,
                extended,
                num_extended,
                length_changed,
                description_changed,
            },
            PathView::ArrGrow,
        ) => {
            if num_extended < values.len() {
                Option::Some(
                    NodeView::Array {
                        description,
                        values,
                        extended,
                        num_extended: num_extended + 1,
                        length_changed,
                        description_changed,
                    },
                )
            } else {
                Option::None
            }
        },
        (
            NodeView::Array {
                description,
                values,
                extended,
                num_extended,
                length_changed,
                description_changed,
            },
            PathView::ArrItem(i, sub),
        ) => {
            if 0 <= i < values.len() {
                match act_on(values[i], *sub) {
                    Option::Some(c2) => Option::Some(
                        NodeView::Array {
                            description,
                            values: values.update(i, c2),
                            extended,
                            num_extended,
                            length_changed,
                            description_changed,
                        },
                    ),
                    Option::None => Option::None,
                }
            } else {
                Option::None
            }
        },
        (_, _) => Option::None,
    }
}

/// Acting at a point of a well-formed tree keeps the tree well formed.
pub proof fn lemma_act_wf(t: NodeView, p: PathView)
    requires
        wf_node(t),
        act_on(t, p) is Some,
    ensures
        wf_node(act_on(t, p)->Some_0),
    decreases p,
{
    match (t, p) {
        (NodeView::Object { members, .. }, PathView::ObjItem(k, sub)) => {
            let idx = member_index_of(members, k);
            lemma_member_index_of(members, k);
            crate::displayvalue::lemma_wf_members_index(members);
            lemma_act_wf(members[idx].1, *sub);
            let c2 = act_on(members[idx].1, *sub)->Some_0;
            let ms2 = members.update(idx, (k, c2));
            assert(forall|j: int| 0 <= j < ms2.len() ==> (#[trigger] ms2[j]).0 == members[j].0);
            assert(forall|j: int|
                0 <= j < ms2.len() && j != idx ==> #[trigger] ms2[j] == members[j]);
            crate::displayvalue::lemma_wf_members_index(ms2);
        },
        (NodeView::Array { values, .. }, PathView::ArrItem(i, sub)) => {
            crate::displayvalue::lemma_wf_values_index(values);
            lemma_act_wf(values[i], *sub);
            let c2 = act_on(values[i], *sub)->Some_0;
            let vs2 = values.update(i, c2);
            assert(forall|j: int|
                0 <= j < vs2.len() && j != i ==> #[trigger] vs2[j] == values[j]);
            crate::displayvalue::lemma_wf_values_index(vs2);
        },
        (_, _) => {},
    }
}

/// No point occurs twice in an enumeration.
pub open spec fn distinct_points(s: Seq<PathView>) -> bool {
    forall|i: int, j: int| 0 <= i < j < s.len() ==> s[i] != s[j]
}

pub proof fn lemma_concat_contains(a: Seq<PathView>, b: Seq<PathView>, x: PathView)
    ensures
        (a + b).contains(x) <==> a.contains(x) || b.contains(x),
{
    if a.contains(x) {
        let i = choose|i: int| 0 <= i < a.len() && a[i] == x;
        assert((a + b)[i] == x);
    }
    if b.contains(x) {
        let i = choose|i: int| 0 <= i < b.len() && b[i] == x;
        assert((a + b)[a.len() + i] == x);
    }
    if (a + b).contains(x) {
        let i = choose|i: int| 0 <= i < (a + b).len() && (a + b)[i] == x;
        if i < a.len() {
            assert(a[i] == x);
        } else {
            assert(b[i - a.len()] == x);
        }
    }
}

pub proof fn lemma_member_get_push(
    ms: Seq<(Seq<char>, NodeView)>,
    x: (Seq<char>, NodeView),
    k: Seq<char>,
)
    ensures
        member_get(ms.push(x), k) == if member_get(ms, k) is Some {
            member_get(ms, k)
        } else if x.0 == k {
            Option::Some(x.1)
        } else {
            Option::<NodeView>::None
        },
    decreases ms,
{
    if ms.len() == 0 {
        assert(ms.push(x)[0] == x);
        assert(ms.push(x).drop_first() =~= Seq::empty());
    } else {
        assert(ms.push(x)[0] == ms[0]);
        assert(ms.push(x).drop_first() =~= ms.drop_first().push(x));
        lemma_member_get_push(ms.drop_first(), x, k);
    }
}

/// What the members of an extended object contribute to the enumeration:
/// exactly the points of each member, each wrapped under its key, with no
/// repetitions.
pub proof fn lemma_member_points(ms: Seq<(Seq<char>, NodeView)>)
    requires
        crate::displayvalue::sorted_members(ms),
        forall|j: int| 0 <= j < ms.len() ==> wf_node((#[trigger] ms[j]).1),
    ensures
        forall|j: int, pp: PathView|
            0 <= j < ms.len() && #[trigger] points(ms[j].1).contains(pp)
                ==> member_points(ms).contains(PathView::ObjItem(ms[j].0, Box::new(pp))),
        forall|q: PathView|
            #[trigger] member_points(ms).contains(q) ==> {
                &&& q is ObjItem
                &&& member_get(ms, q->ObjItem_0) is Some
                &&& points(member_get(ms, q->ObjItem_0)->Some_0).contains(*q->ObjItem_1)
            },
        distinct_points(member_points(ms)),
    decreases ms, 1int, 0int,
{
    if ms.len() == 0 {
    } else {
        let pre = ms.drop_last();
        let last = ms.last();
        let k = last.0;
        let block = points(last.1).map_values(|p: PathView| PathView::ObjItem(k, Box::new(p)));
        assert(forall|j: int| 0 <= j < pre.len() ==> pre[j] == #[trigger] ms[j]);
        assert(wf_node(ms[ms.len() - 1].1));
        lemma_member_points(pre);
        lemma_points(last.1);
        assert(ms =~= pre.push(last));
        // no key of the prefix equals the last key
        assert forall|j: int| 0 <= j < pre.len() implies pre[j].0 != k by {
            assert(str_lt(ms[j].0, ms[ms.len() - 1].0));
            crate::strorder::lemma_str_lt_irrefl(k);
        }
        // clause one: every wrapped member point is contained
        assert forall|j: int, pp: PathView|
            0 <= j < ms.len() && #[trigger] points(ms[j].1).contains(pp) implies member_points(
            ms,
        ).contains(PathView::ObjItem(ms[j].0, Box::new(pp))) by {
            if j < ms.len() - 1 {
                assert(points(pre[j].1).contains(pp));
                assert(pre.contains(pre[j]));
                lemma_concat_contains(
                    member_points(pre),
                    block,
                    PathView::ObjItem(ms[j].0, Box::new(pp)),
                );
            } else {
                let i = choose|i: int| 0 <= i < points(last.1).len() && points(last.1)[i] == pp;
                assert(block[i] == PathView::ObjItem(k, Box::new(pp)));
                assert(block.contains(PathView::ObjItem(k, Box::new(pp))));
                lemma_concat_contains(member_points(pre), block, PathView::ObjItem(k, Box::new(pp)));
            }
        }
        // clause two: everything contained is a well-placed member point
        assert forall|q: PathView| #[trigger] member_points(ms).contains(q) implies {
            &&& q is ObjItem
            &&& member_get(ms, q->ObjItem_0) is Some
            &&& points(member_get(ms, q->ObjItem_0)->Some_0).contains(*q->ObjItem_1)
        } by {
            lemma_concat_contains(member_points(pre), block, q);
            if member_points(pre).contains(q) {
                lemma_member_get_push(pre, last, q->ObjItem_0);
            } else {
                let i = choose|i: int| 0 <= i < block.len() && block[i] == q;
                assert(q == PathView::ObjItem(k, Box::new(points(last.1)[i])));
                assert(points(last.1).contains(points(last.1)[i]));
                lemma_member_get_push(pre, last, k);
                lemma_member_index_of(pre, k);
                assert(member_get(pre, k) is None);
                assert(member_get(ms, k) == Option::Some(last.1));
            }
        }
        // clause three: distinctness
        assert forall|i: int, j: int|
            0 <= i < j < member_points(ms).len() implies member_points(ms)[i] != member_points(
            ms,
        )[j] by {
            let pn = member_points(pre).len();
            if j < pn {
            } else if i >= pn {
                assert(block[i - pn] == PathView::ObjItem(k, Box::new(points(last.1)[i - pn])));
                assert(block[j - pn] == PathView::ObjItem(k, Box::new(points(last.1)[j - pn])));
                assert(points(last.1)[i - pn] != points(last.1)[j - pn]);
            } else {
                let qi = member_points(ms)[i];
                assert(member_points(pre)[i] == qi);
                assert(member_points(pre).contains(qi));
                lemma_member_get_push(pre, last, qi->ObjItem_0);
                lemma_member_index_of(pre, qi->ObjItem_0);
                assert(qi->ObjItem_0 != k);
                assert(member_points(ms)[j] == block[j - pn]);
                assert(block[j - pn] == PathView::ObjItem(k, Box::new(points(last.1)[j - pn])));
            }
        }
    }
}

/// What the first `n` items of an extended array contribute: the points of
/// each visible item, wrapped under its index, with no repetitions.
pub proof fn lemma_item_points(vs: Seq<NodeView>, n: int)
    requires
        0 <= n <= vs.len(),
        forall|j: int| 0 <= j < vs.len() ==> wf_node(#[trigger] vs[j]),
    ensures
        forall|j: int, pp: PathView|
            0 <= j < n && #[trigger] points(vs[j]).contains(pp) ==> item_points(vs, n).contains(
                PathView::ArrItem(j, Box::new(pp)),
            ),
        forall|q: PathView|
            #[trigger] item_points(vs, n).contains(q) ==> {
                &&& q is ArrItem
                &&& 0 <= q->ArrItem_0 < n
                &&& points(vs[q->ArrItem_0]).contains(*q->ArrItem_1)
            },
        distinct_points(item_points(vs, n)),
    decreases vs, 1int, n,
{
    if n > 0 {
        let pre = item_points(vs, n - 1);
        let block = points(vs[n - 1]).map_values(
            |p: PathView| PathView::ArrItem(n - 1, Box::new(p)),
        );
        lemma_item_points(vs, n - 1);
        lemma_points(vs[n - 1]);
        assert forall|j: int, pp: PathView|
            0 <= j < n && #[trigger] points(vs[j]).contains(pp) implies item_points(
            vs,
            n,
        ).contains(PathView::ArrItem(j, Box::new(pp))) by {
            if j < n - 1 {
                lemma_concat_contains(pre, block, PathView::ArrItem(j, Box::new(pp)));
            } else {
                let i = choose|i: int|
                    0 <= i < points(vs[n - 1]).len() && #[trigger] points(vs[n - 1])[i] == pp;
                assert(block[i] == PathView::ArrItem(n - 1, Box::new(pp)));
                assert(block.contains(PathView::ArrItem(n - 1, Box::new(pp))));
                lemma_concat_contains(pre, block, PathView::ArrItem(n - 1, Box::new(pp)));
            }
        }
        assert forall|q: PathView| #[trigger] item_points(vs, n).contains(q) implies {
            &&& q is ArrItem
            &&& 0 <= q->ArrItem_0 < n
            &&& points(vs[q->ArrItem_0]).contains(*q->ArrItem_1)
        } by {
            lemma_concat_contains(pre, block, q);
            if !pre.contains(q) {
                let i = choose|i: int| 0 <= i < block.len() && block[i] == q;
                assert(q == PathView::ArrItem(n - 1, Box::new(points(vs[n - 1])[i])));
                assert(points(vs[n - 1]).contains(points(vs[n - 1])[i]));
            }
        }
        assert forall|i: int, j: int|
            0 <= i < j < item_points(vs, n).len() implies item_points(vs, n)[i] != item_points(
            vs,
            n,
        )[j] by {
            let pn = pre.len();
            if j < pn {
            } else if i >= pn {
                assert(block[i - pn] == PathView::ArrItem(n - 1, Box::new(points(vs[n - 1])[i - pn])));
                assert(block[j - pn] == PathView::ArrItem(n - 1, Box::new(points(vs[n - 1])[j - pn])));
                assert(points(vs[n - 1])[i - pn] != points(vs[n - 1])[j - pn]);
            } else {
                let qi = item_points(vs, n)[i];
                assert(pre[i] == qi);
                assert(pre.contains(qi));
                assert(qi->ArrItem_0 < n - 1);
                assert(item_points(vs, n)[j] == block[j - pn]);
                assert(block[j - pn] == PathView::ArrItem(n - 1, Box::new(points(vs[n - 1])[j - pn])));
            }
        }
    }
}

/// The enumeration of a well-formed tree is never empty, starts at the
/// tree's first point, repeats no point, and holds exactly the valid
/// addresses.
pub proof fn lemma_points(t: NodeView)
    requires
        wf_node(t),
    ensures
        points(t).len() >= 1,
        points(t)[0] == first_point(t),
        distinct_points(points(t)),
        forall|p: PathView| points(t).contains(p) <==> valid_path(t, p),
    decreases t, 0int, 0int,
{
    match t {
        NodeView::Scalar { .. } => {
            assert forall|p: PathView| points(t).contains(p) <==> valid_path(t, p) by {
                if valid_path(t, p) {
                    assert(points(t)[0] == p);
                }
                if points(t).contains(p) {
                    let i = choose|i: int| 0 <= i < points(t).len() && points(t)[i] == p;
                }
            }
        },
        NodeView::Object { members, extended, .. } => {
            if !extended {
                assert forall|p: PathView| points(t).contains(p) <==> valid_path(t, p) by {
                    if valid_path(t, p) {
                        assert(points(t)[0] == p);
                    }
                    if points(t).contains(p) {
                        let i = choose|i: int| 0 <= i < points(t).len() && points(t)[i] == p;
                    }
                }
            } else {
                crate::displayvalue::lemma_wf_members_index(members);
                lemma_member_points(members);
                let toggle = seq![PathView::ObjToggle];
                assert(points(t) == toggle + member_points(members));
                assert(points(t)[0] == PathView::ObjToggle);
                assert forall|p: PathView| points(t).contains(p) <==> valid_path(t, p) by {
                    lemma_concat_contains(toggle, member_points(members), p);
                    if toggle.contains(p) {
                        let i = choose|i: int| 0 <= i < toggle.len() && toggle[i] == p;
                        assert(p == PathView::ObjToggle);
                    }
                    if valid_path(t, p) && p != PathView::ObjToggle {
                        match p {
                            PathView::ObjItem(k, sub) => {
                                lemma_member_index_of(members, k);
                                let idx = member_index_of(members, k);
                                assert(members[idx].1 == member_get(members, k)->Some_0);
                                assert(valid_path(member_get(members, k)->Some_0, *sub));
                                assert(wf_node(members[idx].1));
                                lemma_points(members[idx].1);
                                assert(points(members[idx].1).contains(*sub));
                                assert(member_points(members).contains(
                                    PathView::ObjItem(members[idx].0, Box::new(*sub)),
                                ));
                            },
                            _ => {},
                        }
                    }
                    if member_points(members).contains(p) {
                        let pk = p->ObjItem_0;
                        let psub = p->ObjItem_1;
                        lemma_member_index_of(members, pk);
                        let idx = member_index_of(members, pk);
                        assert(members[idx].1 == member_get(members, pk)->Some_0);
                        assert(wf_node(members[idx].1));
                        lemma_points(members[idx].1);
                        assert(points(members[idx].1).contains(*psub));
                        assert(valid_path(members[idx].1, *psub));
                        assert(p == PathView::ObjItem(pk, psub));
                        assert(valid_path(t, p));
                    }
                }
                assert(toggle[0] == PathView::ObjToggle);
                assert forall|i: int, j: int|
                    0 <= i < j < points(t).len() implies points(t)[i] != points(t)[j] by {
                    if i == 0 {
                        let qj = member_points(members)[j - 1];
                        assert(member_points(members).contains(qj));
                        assert(points(t)[j] == qj);
                    } else {
                        assert(points(t)[i] == member_points(members)[i - 1]);
                        assert(points(t)[j] == member_points(members)[j - 1]);
                    }
                }
            }
        },
        NodeView::Array { values, extended, num_extended, .. } => {
            if !extended {
                assert forall|p: PathView| points(t).contains(p) <==> valid_path(t, p) by {
                    if valid_path(t, p) {
                        assert(points(t)[0] == p);
                    }
                    if points(t).contains(p) {
                        let i = choose|i: int| 0 <= i < points(t).len() && points(t)[i] == p;
                    }
                }
            } else {
                crate::displayvalue::lemma_wf_values_index(values);
                lemma_item_points(values, num_extended);
                let toggle = seq![PathView::ArrToggle];
                let tail = seq![PathView::ArrShrink, PathView::ArrGrow];
                let items = item_points(values, num_extended);
                assert(points(t) == toggle + items + tail);
                assert(points(t)[0] == PathView::ArrToggle);
                assert forall|p: PathView| points(t).contains(p) <==> valid_path(t, p) by {
                    lemma_concat_contains(toggle + items, tail, p);
                    lemma_concat_contains(toggle, items, p);
                    if toggle.contains(p) {
                        let i = choose|i: int| 0 <= i < toggle.len() && toggle[i] == p;
                        assert(p == PathView::ArrToggle);
                    }
                    if tail.contains(p) {
                        let i = choose|i: int| 0 <= i < tail.len() && tail[i] == p;
                        assert(p == PathView::ArrShrink || p == PathView::ArrGrow);
                    }
                    if valid_path(t, p) {
                        match p {
                            PathView::ArrToggle => {
                                assert(toggle[0] == p);
                            },
                            PathView::ArrShrink => {
                                assert(tail[0] == p);
                            },
                            PathView::ArrGrow => {
                                assert(tail[1] == p);
                            },
                            PathView::ArrItem(i, sub) => {
                                assert(valid_path(values[i], *sub));
                                assert(wf_node(values[i]));
                                lemma_points(values[i]);
                                assert(points(values[i]).contains(*sub));
                                assert(items.contains(PathView::ArrItem(i, Box::new(*sub))));
                            },
                            _ => {},
                        }
                    }
                    if items.contains(p) {
                        let pi = p->ArrItem_0;
                        let psub = p->ArrItem_1;
                        assert(wf_node(values[pi]));
                        lemma_points(values[pi]);
                        assert(points(values[pi]).contains(*psub));
                        assert(valid_path(values[pi], *psub));
                        assert(p == PathView::ArrItem(pi, psub));
                        assert(valid_path(t, p));
                    }
                }
                assert forall|i: int, j: int|
                    0 <= i < j < points(t).len() implies points(t)[i] != points(t)[j] by {
                    let ilen = items.len();
                    let qi = points(t)[i];
                    let qj = points(t)[j];
                    if 1 <= i < 1 + ilen {
                        assert(qi == items[i - 1]);
                        assert(items.contains(qi));
                    }
                    if 1 <= j < 1 + ilen {
                        assert(qj == items[j - 1]);
                        assert(items.contains(qj));
                    }
                    if j >= 1 + ilen {
                        assert(qj == tail[j - 1 - ilen]);
                    }
                    if i >= 1 + ilen {
                        assert(qi == tail[i - 1 - ilen]);
                    }
                }
            }
        },
    }
}

/// Navigation totality: in a well-formed tree, every valid address occurs
/// at exactly one position of the canonical enumeration, so stepping
/// through it forwards visits every addressable point exactly once before
/// the end, and stepping backwards replays the same points in reverse.
pub proof fn lemma_navigation_totality(t: NodeView)
    requires
        wf_node(t),
    ensures
        points(t).len() >= 1,
        forall|p: PathView|
            #[trigger] valid_path(t, p) ==> exists|i: int|
                0 <= i < points(t).len() && points(t)[i] == p,
        forall|i: int, j: int|
            0 <= i < points(t).len() && 0 <= j < points(t).len() && points(t)[i] == points(t)[j]
                ==> i == j,
{
    lemma_points(t);
    assert forall|p: PathView| #[trigger] valid_path(t, p) implies exists|i: int|
        0 <= i < points(t).len() && points(t)[i] == p by {
        assert(points(t).contains(p));
    }
}

/// Enumerate every addressable point of the tree, in the canonical
/// depth-first order.
#[verifier::loop_isolation(false)]
pub fn all_points(value: &DisplayValue) -> (r: Vec<Path>)
    requires
        wf_node(value@),
    ensures
        r@.len() == points(value@).len(),
        forall|i: int| 0 <= i < r@.len() ==> (#[trigger] r@[i])@ == points(value@)[i],
    decreases value,
{
    match value {
        DisplayValue::Scalar(_) => {
            let mut r: Vec<Path> = Vec::new();
            r.push(Path::Scalar);
            r
        },
        DisplayValue::Object(o) => {
            let ghost m = member_node_views(o.members@);
            proof {
                crate::displayvalue::lemma_member_node_views(o.members@);
                crate::displayvalue::lemma_wf_members_index(m);
            }
            let mut r: Vec<Path> = Vec::new();
            r.push(Path::Object(ObjectPath::Toggle));
            if !o.extended {
                return r;
            }
            let mut mi: usize = 0;
            proof {
                assert(m.take(0) =~= Seq::empty());
            }
            while mi < o.members.len()
                invariant
                    mi <= o.members@.len(),
                    r@.len() == 1 + member_points(m.take(mi as int)).len(),
                    forall|i: int|
                        0 <= i < r@.len() ==> (#[trigger] r@[i])@ == (seq![PathView::ObjToggle]
                            + member_points(m.take(mi as int)))[i],
                decreases o.members@.len() - mi,
            {
                proof {
                    assert(wf_node(m[mi as int].1));
                }
                let sub = all_points(&o.members[mi].1);
                let ghost base = r@.len() as int;
                let ghost suborig = sub@;
                let ghost block = points(m[mi as int].1).map_values(
                    |p: PathView| PathView::ObjItem(m[mi as int].0, Box::new(p)),
                );
                let mut sub = sub;
                let subn = sub.len();
                let mut si: usize = 0;
                while sub.len() > 0
                    invariant
                        si + sub@.len() == suborig.len(),
                        sub@ == suborig.skip(si as int),
                        r@.len() == base + si,
                        forall|i: int|
                            0 <= i < base ==> (#[trigger] r@[i])@ == (seq![PathView::ObjToggle]
                                + member_points(m.take(mi as int)))[i],
                        forall|i: int|
                            base <= i < r@.len() ==> (#[trigger] r@[i])@ == block[i - base],
                    decreases sub@.len(),
                {
                    let p = sub.remove(0);
                    proof {
                        assert(suborig.skip(si as int)[0] == suborig[si as int]);
                        assert(suborig.skip(si as int).drop_first() =~= suborig.skip(si + 1));
                        assert(p@ == points(m[mi as int].1)[si as int]);
                    }
                    r.push(Path::Object(ObjectPath::Item(o.members[mi].0.clone(), Box::new(p))));
                    si += 1;
                }
                proof {
                    assert(m.take(mi + 1).drop_last() =~= m.take(mi as int));
                    assert(m.take(mi + 1).last() == m[mi as int]);
                    assert(member_points(m.take(mi + 1)) == member_points(m.take(mi as int))
                        + block);
                }
                mi += 1;
            }
            proof {
                assert(m.take(o.members@.len() as int) =~= m);
            }
            r
        },
        DisplayValue::Array(a) => {
            let ghost vsv = node_views(a.values@);
            proof {
                crate::displayvalue::lemma_node_views(a.values@);
                crate::displayvalue::lemma_wf_values_index(vsv);
            }
            let mut r: Vec<Path> = Vec::new();
            r.push(Path::Array(ArrayPath::Toggle));
            if !a.extended {
                return r;
            }
            let mut mi: usize = 0;
            while mi < a.num_extended
                invariant
                    mi <= a.num_extended,
                    a.num_extended <= a.values@.len(),
                    r@.len() == 1 + item_points(vsv, mi as int).len(),
                    forall|i: int|
                        0 <= i < r@.len() ==> (#[trigger] r@[i])@ == (seq![PathView::ArrToggle]
                            + item_points(vsv, mi as int))[i],
                decreases a.num_extended - mi,
            {
                proof {
                    assert(wf_node(vsv[mi as int]));
                }
                let sub = all_points(&a.values[mi]);
                let ghost base = r@.len() as int;
                let ghost suborig = sub@;
                let ghost block = points(vsv[mi as int]).map_values(
                    |p: PathView| PathView::ArrItem(mi as int, Box::new(p)),
                );
                let mut sub = sub;
                let subn = sub.len();
                let mut si: usize = 0;
                while sub.len() > 0
                    invariant
                        si + sub@.len() == suborig.len(),
                        sub@ == suborig.skip(si as int),
                        r@.len() == base + si,
                        forall|i: int|
                            0 <= i < base ==> (#[trigger] r@[i])@ == (seq![PathView::ArrToggle]
                                + item_points(vsv, mi as int))[i],
                        forall|i: int|
                            base <= i < r@.len() ==> (#[trigger] r@[i])@ == block[i - base],
                    decreases sub@.len(),
                {
                    let p = sub.remove(0);
                    proof {
                        assert(suborig.skip(si as int)[0] == suborig[si as int]);
                        assert(suborig.skip(si as int).drop_first() =~= suborig.skip(si + 1));
                        assert(p@ == points(vsv[mi as int])[si as int]);
                    }
                    r.push(Path::Array(ArrayPath::Item(mi, Box::new(p))));
                    si += 1;
                }
                proof {
                    assert(item_points(vsv, mi + 1) == item_points(vsv, mi as int) + block);
                }
                mi += 1;
            }
            r.push(Path::Array(ArrayPath::Shrink));
            r.push(Path::Array(ArrayPath::Grow));
            proof {
                assert(points(value@) == seq![PathView::ArrToggle] + item_points(
                    vsv,
                    a.num_extended as int,
                ) + seq![PathView::ArrShrink, PathView::ArrGrow]);
            }
            r
        },
    }
}

/// Structural equality of two addresses.
pub fn path_eq(a: &Path, b: &Path) -> (r: bool)
    ensures
        r == (a@ == b@),
    decreases a,
{
    match (a, b) {
        (Path::Scalar, Path::Scalar) => true,
        (Path::Object(ObjectPath::Toggle), Path::Object(ObjectPath::Toggle)) => true,
        (Path::Object(ObjectPath::Item(k1, s1)), Path::Object(ObjectPath::Item(k2, s2))) => {
            if *k1 == *k2 {
                path_eq(s1, s2)
            } else {
                false
            }
        },
        (Path::Array(ArrayPath::Toggle), Path::Array(ArrayPath::Toggle)) => true,
        (Path::Array(ArrayPath::Shrink), Path::Array(ArrayPath::Shrink)) => true,
        (Path::Array(ArrayPath::Grow), Path::Array(ArrayPath::Grow)) => true,
        (Path::Array(ArrayPath::Item(i1, s1)), Path::Array(ArrayPath::Item(i2, s2))) => {
            if *i1 == *i2 {
                path_eq(s1, s2)
            } else {
                false
            }
        },
        (_, _) => false,
    }
}

impl Path {
    /// The point immediately after this one in the canonical enumeration,
    /// or `None` at the last point: navigation does not wrap around.
    #[verifier::loop_isolation(false)]
    pub fn find_next_path(&self, value: &DisplayValue) -> (r: Option<Path>)
        requires
            wf_node(value@),
            valid_path(value@, self@),
        ensures
            ({
                let pts = points(value@);
                let i = pts.index_of(self@);
                match r {
                    Option::Some(q) => i + 1 < pts.len() && q@ == pts[i + 1],
                    Option::None => i + 1 == pts.len(),
                }
            }),
    {
        let mut pts = all_points(value);
        proof {
            lemma_points(value@);
        }
        let ghost ptsv = points(value@);
        let n = pts.len();
        let mut j: usize = 0;
        while j < n
            invariant
                j <= n,
                pts@.len() == ptsv.len(),
                n == pts@.len(),
                forall|i: int| 0 <= i < pts@.len() ==> (#[trigger] pts@[i])@ == ptsv[i],
                forall|i: int| 0 <= i < j ==> ptsv[i] != self@,
            decreases n - j,
        {
            if path_eq(&pts[j], self) {
                proof {
                    assert(ptsv[j as int] == self@);
                    let i0 = ptsv.index_of(self@);
                    assert(ptsv[i0] == self@);
                    assert(i0 == j);
                }
                if j + 1 < n {
                    let q = pts.remove(j + 1);
                    return Option::Some(q);
                } else {
                    return Option::None;
                }
            }
            j += 1;
        }
        proof {
            assert(ptsv.contains(self@));
            let i0 = choose|i: int| 0 <= i < ptsv.len() && ptsv[i] == self@;
            assert(ptsv[i0] != self@);
            assert(false);
        }
        Option::None
    }

    /// The point immediately before this one in the canonical enumeration,
    /// or `None` at the first point.
    #[verifier::loop_isolation(false)]
    pub fn find_previous_path(&self, value: &DisplayValue) -> (r: Option<Path>)
        requires
            wf_node(value@),
            valid_path(value@, self@),
        ensures
            ({
                let pts = points(value@);
                let i = pts.index_of(self@);
                match r {
                    Option::Some(q) => i >= 1 && q@ == pts[i - 1],
                    Option::None => i == 0,
                }
            }),
    {
        let mut pts = all_points(value);
        proof {
            lemma_points(value@);
        }
        let ghost ptsv = points(value@);
        let n = pts.len();
        let mut j: usize = 0;
        while j < n
            invariant
                j <= n,
                pts@.len() == ptsv.len(),
                n == pts@.len(),
                forall|i: int| 0 <= i < pts@.len() ==> (#[trigger] pts@[i])@ == ptsv[i],
                forall|i: int| 0 <= i < j ==> ptsv[i] != self@,
            decreases n - j,
        {
            if path_eq(&pts[j], self) {
                proof {
                    assert(ptsv[j as int] == self@);
                    let i0 = ptsv.index_of(self@);
                    assert(ptsv[i0] == self@);
                    assert(i0 == j);
                }
                if j > 0 {
                    let q = pts.remove(j - 1);
                    return Option::Some(q);
                } else {
                    return Option::None;
                }
            }
            j += 1;
        }
        proof {
            assert(ptsv.contains(self@));
            let i0 = choose|i: int| 0 <= i < ptsv.len() && ptsv[i] == self@;
            assert(ptsv[i0] != self@);
            assert(false);
        }
        Option::None
    }

    /// Re-validate this address against the current tree, walking from the
    /// root and snapping to the nearest still-existing point.
    pub fn fix_path_for_value(&self, value: &DisplayValue) -> (r: Path)
        ensures
            r@ == repair_path(value@, self@),
        decreases self,
    {
        match (value, self) {
            (DisplayValue::Scalar(_), _) => Path::Scalar,
            (DisplayValue::Object(o), Path::Object(ObjectPath::Item(k, sub))) => {
                if o.extended {
                    match o.get_member(k) {
                        Option::Some(child) => Path::Object(
                            ObjectPath::Item(k.clone(), Box::new(sub.fix_path_for_value(child))),
                        ),
                        Option::None => Path::Object(ObjectPath::Toggle),
                    }
                } else {
                    Path::Object(ObjectPath::Toggle)
                }
            },
            (DisplayValue::Object(_), _) => Path::Object(ObjectPath::Toggle),
            (DisplayValue::Array(a), Path::Array(ArrayPath::Item(i, sub))) => {
                proof {
                    crate::displayvalue::lemma_node_views(a.values@);
                }
                if a.extended && *i < a.num_extended && *i < a.values.len() {
                    Path::Array(
                        ArrayPath::Item(*i, Box::new(sub.fix_path_for_value(&a.values[*i]))),
                    )
                } else {
                    Path::Array(ArrayPath::Toggle)
                }
            },
            (DisplayValue::Array(a), Path::Array(ArrayPath::Shrink)) => {
                if a.extended {
                    Path::Array(ArrayPath::Shrink)
                } else {
                    Path::Array(ArrayPath::Toggle)
                }
            },
            (DisplayValue::Array(a), Path::Array(ArrayPath::Grow)) => {
                if a.extended {
                    Path::Array(ArrayPath::Grow)
                } else {
                    Path::Array(ArrayPath::Toggle)
                }
            },
            (DisplayValue::Array(_), _) => Path::Array(ArrayPath::Toggle),
        }
    }

    /// Perform the action bound to the addressed point: toggle a
    /// container, or grow or shrink an array within its bounds. Fails, and
    /// leaves the tree untouched, at a scalar point or when the action is
    /// currently not allowed.
    #[verifier::loop_isolation(false)]
    pub fn find_and_act_on_element(&self, value: &mut DisplayValue) -> (r: Result<(), ()>)
        ensures
            match act_on(old(value)@, self@) {
                Option::Some(t2) => r is Ok && final(value)@ == t2,
                Option::None => r is Err && final(value)@ == old(value)@,
            },
        decreases self,
    {
        match (value, self) {
            (DisplayValue::Object(o), Path::Object(ObjectPath::Toggle)) => {
                o.toggle_visibility();
                Result::Ok(())
            },
            (DisplayValue::Object(o), Path::Object(ObjectPath::Item(k, sub))) => {
                let ghost ms = member_node_views(o.members@);
                proof {
                    crate::displayvalue::lemma_member_node_views(o.members@);
                    lemma_member_index_of(ms, k@);
                }
                let ghost odesc = o.description;
                let ghost oext = o.extended;
                let ghost odc = o.description_changed;
                let n = o.members.len();
                let mut j: usize = 0;
                while j < n
                    invariant
                        o.description == odesc,
                        o.extended == oext,
                        o.description_changed == odc,
                        n == o.members@.len(),
                        j <= n,
                        ms == member_node_views(o.members@),
                        ms.len() == n,
                        forall|jj: int|
                            0 <= jj < n ==> ms[jj] == (
                                (#[trigger] o.members@[jj]).0@,
                                crate::displayvalue::display_value_view(o.members@[jj].1),
                            ),
                        forall|jj: int| 0 <= jj < j ==> (#[trigger] ms[jj]).0 != k@,
                    decreases n - j,
                {
                    if o.members[j].0 == *k {
                        proof {
                            lemma_member_index_of(ms, k@);
                            assert(member_index_of(ms, k@) == j);
                        }
                        let ghost omem = o.members@;
                        let elem = &mut o.members[j];
                        let r = sub.find_and_act_on_element(&mut elem.1);
                        proof {
                            crate::displayvalue::lemma_member_node_views(o.members@);
                            assert(self@ == PathView::ObjItem(k@, Box::new((*sub)@)));
                            assert(act_on(old(value)@, self@) is Some <==> act_on(
                                ms[j as int].1,
                                (*sub)@,
                            ) is Some);
                            assert(crate::displayvalue::display_value_view(omem[j as int].1)
                                == ms[j as int].1);
                            assert(act_on(ms[j as int].1, (*sub)@) is Some ==> r is Ok);
                            assert(act_on(ms[j as int].1, (*sub)@) is None ==> r is Err);
                            match act_on(ms[j as int].1, (*sub)@) {
                                Option::Some(c2) => {
                                    assert forall|jj: int| 0 <= jj < o.members@.len() implies
                                        member_node_views(o.members@)[jj] == ms.update(
                                        j as int,
                                        (k@, c2),
                                    )[jj] by {
                                        assert(member_node_views(o.members@)[jj] == (
                                            o.members@[jj].0@,
                                            crate::displayvalue::display_value_view(
                                                o.members@[jj].1,
                                            ),
                                        ));
                                        if jj != j {
                                            assert(o.members@[jj] == omem[jj]);
                                        }
                                    }
                                    assert(member_node_views(o.members@) =~= ms.update(
                                        j as int,
                                        (k@, c2),
                                    ));
                                },
                                Option::None => {
                                    assert forall|jj: int| 0 <= jj < o.members@.len() implies
                                        member_node_views(o.members@)[jj] == ms[jj] by {
                                        assert(member_node_views(o.members@)[jj] == (
                                            o.members@[jj].0@,
                                            crate::displayvalue::display_value_view(
                                                o.members@[jj].1,
                                            ),
                                        ));
                                        if jj != j {
                                            assert(o.members@[jj] == omem[jj]);
                                        }
                                    }
                                    assert(member_node_views(o.members@) =~= ms);
                                },
                            }
                        }
                        return r;
                    }
                    j += 1;
                }
                proof {
                    assert(member_index_of(ms, k@) == -1);
                }
                Result::Err(())
            },
            (DisplayValue::Array(a), Path::Array(ArrayPath::Toggle)) => {
                a.toggle_visibility();
                Result::Ok(())
            },
            (DisplayValue::Array(a), Path::Array(ArrayPath::Shrink)) => {
                if a.can_shrink() {
                    a.shrink();
                    Result::Ok(())
                } else {
                    Result::Err(())
                }
            },
            (DisplayValue::Array(a), Path::Array(ArrayPath::Grow)) => {
                proof {
                    crate::displayvalue::lemma_node_views(a.values@);
                }
                if a.can_grow() {
                    a.grow();
                    Result::Ok(())
                } else {
                    Result::Err(())
                }
            },
            (DisplayValue::Array(a), Path::Array(ArrayPath::Item(i, sub))) => {
                let ghost vs = node_views(a.values@);
                proof {
                    crate::displayvalue::lemma_node_views(a.values@);
                }
                if *i < a.values.len() {
                    let ghost ovals = a.values@;
                    let elem = &mut a.values[*i];
                    let r = sub.find_and_act_on_element(elem);
                    proof {
                        crate::displayvalue::lemma_node_views(a.values@);
                        assert(self@ == PathView::ArrItem(*i as int, Box::new((*sub)@)));
                        assert(crate::displayvalue::display_value_view(ovals[*i as int])
                            == vs[*i as int]);
                        assert(act_on(vs[*i as int], (*sub)@) is Some ==> r is Ok);
                        assert(act_on(vs[*i as int], (*sub)@) is None ==> r is Err);
                        match act_on(vs[*i as int], (*sub)@) {
                            Option::Some(c2) => {
                                assert forall|jj: int| 0 <= jj < a.values@.len() implies
                                    node_views(a.values@)[jj] == vs.update(*i as int, c2)[jj] by {
                                    assert(node_views(a.values@)[jj]
                                        == crate::displayvalue::display_value_view(a.values@[jj]));
                                    if jj != *i {
                                        assert(a.values@[jj] == ovals[jj]);
                                        assert(vs[jj] == crate::displayvalue::display_value_view(
                                            ovals[jj],
                                        ));
                                    }
                                }
                                assert(node_views(a.values@) =~= vs.update(*i as int, c2));
                            },
                            Option::None => {
                                assert forall|jj: int| 0 <= jj < a.values@.len() implies
                                    node_views(a.values@)[jj] == vs[jj] by {
                                    assert(node_views(a.values@)[jj]
                                        == crate::displayvalue::display_value_view(a.values@[jj]));
                                    if jj != *i {
                                        assert(a.values@[jj] == ovals[jj]);
                                        assert(vs[jj] == crate::displayvalue::display_value_view(
                                            ovals[jj],
                                        ));
                                    }
                                }
                                assert(node_views(a.values@) =~= vs);
                            },
                        }
                    }
                    r
                } else {
                    Result::Err(())
                }
            },
            (_, _) => Result::Err(()),
        }
    }
}

} // verus!
