//! The diff tree: a fold-state-carrying mirror of the last value snapshot.
//!
//! A [`DisplayValue`] is built fresh from a [`ValueVariant`] by `new`, and is
//! reconciled against a later snapshot by `update`, which migrates fold
//! state (the `extended` flags and an array's visible-item count) by key or
//! index identity and computes one-step-back change flags.

use vstd::prelude::*;

use crate::strorder::str_lt;
use crate::strorder::str_lt_exec;
use crate::ValueVariant;
use crate::ValueView;
use crate::option_string_view;

verus! {

broadcast use vstd::std_specs::vec::group_vec_axioms;

/// A scalar leaf: its rendered text and whether it differed from the text
/// at the same position in the previous snapshot.
pub struct DisplayScalar {
    pub value: String,
    pub changed: bool,
}

/// An object node: members sorted by key, a fold flag, and change flags for
/// the description.
pub struct DisplayObject {
    pub description: Option<String>,
    pub members: Vec<(String, DisplayValue)>,
    pub extended: bool,
    pub description_changed: bool,
}

/// An array node: items in index order, a fold flag, the number of items
/// currently shown, and change flags for length and description.
pub struct DisplayArray {
    pub description: Option<String>,
    pub values: Vec<DisplayValue>,
    pub extended: bool,
    pub num_extended: usize,
    pub length_changed: bool,
    pub description_changed: bool,
}

/// A node of the diff tree.
pub enum DisplayValue {
    Scalar(DisplayScalar),
    Object(DisplayObject),
    Array(DisplayArray),
}

/// Mathematical model of a diff-tree node.
#[verifier::ext_equal]
pub enum NodeView {
    Scalar { value: Seq<char>, changed: bool },
    Object {
        description: Option<Seq<char>>,
        members: Seq<(Seq<char>, NodeView)>,
        extended: bool,
        description_changed: bool,
    },
    Array {
        description: Option<Seq<char>>,
        values: Seq<NodeView>,
        extended: bool,
        num_extended: int,
        length_changed: bool,
        description_changed: bool,
    },
}

pub open spec fn member_node_views(ms: Seq<(String, DisplayValue)>) -> Seq<(Seq<char>, NodeView)>
    decreases ms,
{
    if ms.len() == 0 {
        Seq::empty()
    } else {
        member_node_views(ms.drop_last()).push(
            (ms.last().0@, display_value_view(ms.last().1)),
        )
    }
}

pub open spec fn node_views(vs: Seq<DisplayValue>) -> Seq<NodeView>
    decreases vs,
{
    if vs.len() == 0 {
        Seq::empty()
    } else {
        node_views(vs.drop_last()).push(display_value_view(vs.last()))
    }
}

pub open spec fn display_value_view(t: DisplayValue) -> NodeView
    decreases t,
{
    match t {
        DisplayValue::Scalar(s) => NodeView::Scalar { value: s.value@, changed: s.changed },
        DisplayValue::Object(o) => NodeView::Object {
            description: option_string_view(o.description),
            members: member_node_views(o.members@),
            extended: o.extended,
            description_changed: o.description_changed,
        },
        DisplayValue::Array(a) => NodeView::Array {
            description: option_string_view(a.description),
            values: node_views(a.values@),
            extended: a.extended,
            num_extended: a.num_extended as int,
            length_changed: a.length_changed,
            description_changed: a.description_changed,
        },
    }
}

pub proof fn lemma_member_node_views(ms: Seq<(String, DisplayValue)>)
    ensures
        member_node_views(ms).len() == ms.len(),
        forall|i: int|
            0 <= i < ms.len() ==> member_node_views(ms)[i] == (
                (#[trigger] ms[i]).0@,
                display_value_view(ms[i].1),
            ),
    decreases ms,
{
    if ms.len() > 0 {
        lemma_member_node_views(ms.drop_last());
        assert forall|i: int| 0 <= i < ms.len() implies member_node_views(ms)[i] == (
            (#[trigger] ms[i]).0@,
            display_value_view(ms[i].1),
        ) by {
            if i < ms.len() - 1 {
                assert(ms.drop_last()[i] == ms[i]);
                assert(member_node_views(ms)[i] == member_node_views(ms.drop_last())[i]);
            } else {
                assert(ms.last() == ms[i]);
            }
        }
    }
}

pub proof fn lemma_node_views(vs: Seq<DisplayValue>)
    ensures
        node_views(vs).len() == vs.len(),
        forall|i: int|
            0 <= i < vs.len() ==> node_views(vs)[i] == display_value_view(#[trigger] vs[i]),
    decreases vs,
{
    if vs.len() > 0 {
        lemma_node_views(vs.drop_last());
        assert forall|i: int| 0 <= i < vs.len() implies node_views(vs)[i] == display_value_view(
            #[trigger] vs[i],
        ) by {
            if i < vs.len() - 1 {
                assert(vs.drop_last()[i] == vs[i]);
                assert(node_views(vs)[i] == node_views(vs.drop_last())[i]);
            } else {
                assert(vs.last() == vs[i]);
            }
        }
    }
}

impl View for DisplayValue {
    type V = NodeView;

    open spec fn view(&self) -> NodeView {
        display_value_view(*self)
    }
}

impl View for DisplayScalar {
    type V = NodeView;

    open spec fn view(&self) -> NodeView {
        NodeView::Scalar { value: self.value@, changed: self.changed }
    }
}

impl View for DisplayObject {
    type V = NodeView;

    open spec fn view(&self) -> NodeView {
        NodeView::Object {
            description: option_string_view(self.description),
            members: member_node_views(self.members@),
            extended: self.extended,
            description_changed: self.description_changed,
        }
    }
}

impl View for DisplayArray {
    type V = NodeView;

    open spec fn view(&self) -> NodeView {
        NodeView::Array {
            description: option_string_view(self.description),
            values: node_views(self.values@),
            extended: self.extended,
            num_extended: self.num_extended as int,
            length_changed: self.length_changed,
            description_changed: self.description_changed,
        }
    }
}

/// Keys strictly increase, so each key occurs once.
pub open spec fn sorted_members(ms: Seq<(Seq<char>, NodeView)>) -> bool {
    forall|i: int, j: int|
        0 <= i < j < ms.len() ==> str_lt(#[trigger] ms[i].0, #[trigger] ms[j].0)
}

/// The member list of an object is strictly sorted by key; an array never
/// shows more items than it has. These invariants hold of every tree that
/// `new` or `update` produces.
pub open spec fn wf_node(t: NodeView) -> bool
    decreases t,
{
    match t {
        NodeView::Scalar { .. } => true,
        NodeView::Object { members, .. } => {
            &&& sorted_members(members)
            &&& wf_members(members)
        },
        NodeView::Array { values, num_extended, .. } => {
            &&& 0 <= num_extended <= values.len()
            &&& wf_values(values)
        },
    }
}

pub open spec fn wf_members(ms: Seq<(Seq<char>, NodeView)>) -> bool
    decreases ms,
{
    if ms.len() == 0 {
        true
    } else {
        wf_members(ms.drop_last()) && wf_node(ms.last().1)
    }
}

pub open spec fn wf_values(vs: Seq<NodeView>) -> bool
    decreases vs,
{
    if vs.len() == 0 {
        true
    } else {
        wf_values(vs.drop_last()) && wf_node(vs.last())
    }
}

/// The node stored for key `k`, if any. Under `wf_node` keys are unique, so
/// the first match is the only one.
pub open spec fn member_get(ms: Seq<(Seq<char>, NodeView)>, k: Seq<char>) -> Option<NodeView>
    decreases ms,
{
    if ms.len() == 0 {
        Option::None
    } else if ms[0].0 == k {
        Option::Some(ms[0].1)
    } else {
        member_get(ms.drop_first(), k)
    }
}

/// Insert `(k, t)` into a key-sorted member list, replacing the entry for
/// `k` if one is present.
pub open spec fn member_insert(
    ms: Seq<(Seq<char>, NodeView)>,
    k: Seq<char>,
    t: NodeView,
) -> Seq<(Seq<char>, NodeView)>
    decreases ms,
{
    if ms.len() == 0 {
        seq![(k, t)]
    } else if str_lt(k, ms[0].0) {
        seq![(k, t)] + ms
    } else if k == ms[0].0 {
        seq![(k, t)] + ms.drop_first()
    } else {
        seq![ms[0]] + member_insert(ms.drop_first(), k, t)
    }
}

pub open spec fn spec_min(a: int, b: int) -> int {
    if a < b {
        a
    } else {
        b
    }
}

/// A freshly constructed tree: everything extended, arrays showing at most
/// three items, no change flags set.
pub open spec fn spec_new(v: ValueView) -> NodeView
    decreases v, 0int,
{
    match v {
        ValueView::Scalar { text } => NodeView::Scalar { value: text, changed: false },
        ValueView::Object { description, entries } => NodeView::Object {
            description,
            members: update_members(Seq::empty(), entries),
            extended: true,
            description_changed: false,
        },
        ValueView::Array { description, items } => NodeView::Array {
            description,
            values: update_values(Seq::empty(), items),
            extended: true,
            num_extended: spec_min(3, items.len() as int),
            length_changed: false,
            description_changed: false,
        },
    }
}

/// If the replacement for a node of a different shape is a scalar, it is
/// flagged as changed; replacement containers carry no forced flag.
pub open spec fn force_changed(t: NodeView) -> NodeView {
    match t {
        NodeView::Scalar { value, .. } => NodeView::Scalar { value, changed: true },
        other => other,
    }
}

/// Reconciliation: the new snapshot `v` wins everywhere; fold state is
/// migrated from `t` at matching keys or indices, and change flags record
/// the one-step-back differences.
pub open spec fn spec_update(t: NodeView, v: ValueView) -> NodeView
    decreases v, 1int,
{
    match (t, v) {
        (NodeView::Scalar { value, .. }, ValueView::Scalar { text }) => NodeView::Scalar {
            value: text,
            changed: value != text,
        },
        (
            NodeView::Object { description: od, members: om, extended, .. },
            ValueView::Object { description, entries },
        ) => NodeView::Object {
            description,
            members: update_members(om, entries),
            extended,
            description_changed: od != description,
        },
        (
            NodeView::Array { description: od, values: ov, extended, num_extended, .. },
            ValueView::Array { description, items },
        ) => NodeView::Array {
            description,
            values: update_values(ov, items),
            extended,
            num_extended: spec_min(num_extended, items.len() as int),
            length_changed: ov.len() != items.len(),
            description_changed: od != description,
        },
        (_, _) => force_changed(spec_new(v)),
    }
}

/// Build the member list for the new snapshot: each entry is reconciled
/// against the old member of the same key, or constructed fresh, and the
/// results are inserted in key-sorted order.
pub open spec fn update_members(
    om: Seq<(Seq<char>, NodeView)>,
    entries: Seq<(Seq<char>, ValueView)>,
) -> Seq<(Seq<char>, NodeView)>
    decreases entries, 1int,
{
    if entries.len() == 0 {
        Seq::empty()
    } else {
        let k = entries.last().0;
        let cv = entries.last().1;
        let node = match member_get(om, k) {
            Option::Some(old) => spec_update(old, cv),
            Option::None => spec_new(cv),
        };
        member_insert(update_members(om, entries.drop_last()), k, node)
    }
}

/// Build the item list for the new snapshot: items are reconciled pairwise
/// by index; indices past the old length are constructed fresh.
pub open spec fn update_values(ov: Seq<NodeView>, items: Seq<ValueView>) -> Seq<NodeView>
    decreases items, 1int,
{
    if items.len() == 0 {
        Seq::empty()
    } else {
        update_values(ov, items.drop_last()).push(
            if items.len() - 1 < ov.len() {
                spec_update(ov[items.len() - 1], items.last())
            } else {
                spec_new(items.last())
            },
        )
    }
}

pub proof fn lemma_wf_members_index(ms: Seq<(Seq<char>, NodeView)>)
    ensures
        wf_members(ms) <==> (forall|j: int| 0 <= j < ms.len() ==> wf_node((#[trigger] ms[j]).1)),
    decreases ms,
{
    if ms.len() > 0 {
        lemma_wf_members_index(ms.drop_last());
        assert(forall|j: int|
            0 <= j < ms.len() - 1 ==> (#[trigger] ms[j]) == ms.drop_last()[j]);
        assert(ms.last() == ms[ms.len() - 1]);
    }
}

pub proof fn lemma_wf_values_index(vs: Seq<NodeView>)
    ensures
        wf_values(vs) <==> (forall|j: int| 0 <= j < vs.len() ==> wf_node(#[trigger] vs[j])),
    decreases vs,
{
    if vs.len() > 0 {
        lemma_wf_values_index(vs.drop_last());
        assert(forall|j: int|
            0 <= j < vs.len() - 1 ==> (#[trigger] vs[j]) == vs.drop_last()[j]);
        assert(vs.last() == vs[vs.len() - 1]);
    }
}

pub proof fn lemma_member_get_wf(ms: Seq<(Seq<char>, NodeView)>, k: Seq<char>)
    requires
        forall|j: int| 0 <= j < ms.len() ==> wf_node((#[trigger] ms[j]).1),
    ensures
        member_get(ms, k) is Some ==> wf_node(member_get(ms, k)->Some_0),
    decreases ms,
{
    if ms.len() > 0 && ms[0].0 != k {
        assert(forall|j: int|
            0 <= j < ms.drop_first().len() ==> (#[trigger] ms.drop_first()[j]) == ms[j + 1]);
        lemma_member_get_wf(ms.drop_first(), k);
    }
}

/// What `member_insert` holds: the new entry under its key, every other
/// key unchanged, and nothing that was not either there before or inserted.
pub proof fn lemma_member_insert(ms: Seq<(Seq<char>, NodeView)>, k: Seq<char>, t: NodeView)
    ensures
        member_get(member_insert(ms, k, t), k) == Option::Some(t),
        forall|k2: Seq<char>|
            k2 != k ==> #[trigger] member_get(member_insert(ms, k, t), k2) == member_get(ms, k2),
        forall|j: int|
            0 <= j < member_insert(ms, k, t).len() ==> (#[trigger] member_insert(ms, k, t)[j] == (
                k,
                t,
            ) || ms.contains(member_insert(ms, k, t)[j])),
    decreases ms,
{
    let res = member_insert(ms, k, t);
    if ms.len() == 0 {
        assert(res == seq![(k, t)]);
        assert(res[0] == (k, t));
        assert forall|k2: Seq<char>| k2 != k implies #[trigger] member_get(res, k2) == member_get(
            ms,
            k2,
        ) by {
            assert(member_get(res, k2) == member_get(res.drop_first(), k2));
            assert(res.drop_first().len() == 0);
        }
    } else if str_lt(k, ms[0].0) {
        crate::strorder::lemma_str_lt_irrefl(k);
        assert(res == seq![(k, t)] + ms);
        assert(res[0] == (k, t));
        assert(res.drop_first() =~= ms);
        assert(forall|j: int| 1 <= j < res.len() ==> #[trigger] res[j] == ms[j - 1]);
        assert forall|k2: Seq<char>| k2 != k implies #[trigger] member_get(res, k2) == member_get(
            ms,
            k2,
        ) by {
            assert(member_get(res, k2) == member_get(res.drop_first(), k2));
        }
    } else if k == ms[0].0 {
        assert(res == seq![(k, t)] + ms.drop_first());
        assert(res[0] == (k, t));
        assert(res.drop_first() =~= ms.drop_first());
        assert forall|k2: Seq<char>| k2 != k implies #[trigger] member_get(res, k2) == member_get(
            ms,
            k2,
        ) by {
            assert(member_get(res, k2) == member_get(res.drop_first(), k2));
            assert(member_get(ms, k2) == member_get(ms.drop_first(), k2));
        }
        assert(forall|j: int|
            1 <= j < res.len() ==> #[trigger] res[j] == ms[j] && ms.contains(ms[j]));
    } else {
        lemma_member_insert(ms.drop_first(), k, t);
        assert(res == seq![ms[0]] + member_insert(ms.drop_first(), k, t));
        assert(res[0] == ms[0]);
        assert(res.drop_first() =~= member_insert(ms.drop_first(), k, t));
        assert(member_get(res, k) == member_get(res.drop_first(), k));
        assert forall|k2: Seq<char>| k2 != k implies #[trigger] member_get(res, k2) == member_get(
            ms,
            k2,
        ) by {
            if k2 != ms[0].0 {
                assert(member_get(res, k2) == member_get(res.drop_first(), k2));
                assert(member_get(ms, k2) == member_get(ms.drop_first(), k2));
            }
        }
        assert forall|j: int| 0 <= j < res.len() implies (#[trigger] res[j] == (k, t)
            || ms.contains(res[j])) by {
            if j > 0 {
                let inner = member_insert(ms.drop_first(), k, t);
                assert(res[j] == inner[j - 1]);
                if inner[j - 1] != (k, t) {
                    assert(ms.drop_first().contains(inner[j - 1]));
                    let idx = choose|idx: int|
                        0 <= idx < ms.drop_first().len() && ms.drop_first()[idx] == inner[j - 1];
                    assert(ms[idx + 1] == inner[j - 1]);
                }
            } else {
                assert(ms.contains(ms[0]));
            }
        }
    }
}

pub proof fn lemma_member_insert_sorted(ms: Seq<(Seq<char>, NodeView)>, k: Seq<char>, t: NodeView)
    requires
        sorted_members(ms),
    ensures
        sorted_members(member_insert(ms, k, t)),
    decreases ms,
{
    let res = member_insert(ms, k, t);
    if ms.len() == 0 {
    } else if str_lt(k, ms[0].0) {
        assert(forall|j: int| 1 <= j < res.len() ==> #[trigger] res[j] == ms[j - 1]);
        assert forall|i: int, j: int| 0 <= i < j < res.len() implies str_lt(
            (#[trigger] res[i]).0,
            (#[trigger] res[j]).0,
        ) by {
            if i == 0 {
                if j > 1 {
                    crate::strorder::lemma_str_lt_trans(k, ms[0].0, ms[j - 1].0);
                }
            }
        }
    } else if k == ms[0].0 {
        assert(forall|j: int| 1 <= j < res.len() ==> #[trigger] res[j] == ms[j]);
        assert forall|i: int, j: int| 0 <= i < j < res.len() implies str_lt(
            (#[trigger] res[i]).0,
            (#[trigger] res[j]).0,
        ) by {
            if i == 0 {
                assert(str_lt(ms[0].0, ms[j].0));
            }
        }
    } else {
        crate::strorder::lemma_str_lt_connex(k, ms[0].0);
        assert(str_lt(ms[0].0, k));
        assert(forall|i: int, j: int|
            0 <= i < j < ms.drop_first().len() ==> str_lt(
                (#[trigger] ms.drop_first()[i]).0,
                (#[trigger] ms.drop_first()[j]).0,
            ));
        lemma_member_insert_sorted(ms.drop_first(), k, t);
        lemma_member_insert(ms.drop_first(), k, t);
        let inner = member_insert(ms.drop_first(), k, t);
        assert(forall|j: int| 1 <= j < res.len() ==> #[trigger] res[j] == inner[j - 1]);
        assert forall|i: int, j: int| 0 <= i < j < res.len() implies str_lt(
            (#[trigger] res[i]).0,
            (#[trigger] res[j]).0,
        ) by {
            if i == 0 {
                if inner[j - 1] == (k, t) {
                    assert(str_lt(ms[0].0, k));
                } else {
                    assert(ms.drop_first().contains(inner[j - 1]));
                    let idx = choose|idx: int|
                        0 <= idx < ms.drop_first().len() && ms.drop_first()[idx] == inner[j - 1];
                    assert(ms[idx + 1] == inner[j - 1]);
                    assert(str_lt(ms[0].0, ms[idx + 1].0));
                }
            } else {
                assert(str_lt(inner[i - 1].0, inner[j - 1].0));
            }
        }
    }
}

/// The member list built by reconciliation is sorted, exactly as long as
/// the set of distinct entry keys, and all of its nodes are well formed.
pub proof fn lemma_update_members_wf(
    om: Seq<(Seq<char>, NodeView)>,
    entries: Seq<(Seq<char>, ValueView)>,
)
    requires
        forall|j: int| 0 <= j < om.len() ==> wf_node((#[trigger] om[j]).1),
    ensures
        sorted_members(update_members(om, entries)),
        forall|j: int|
            0 <= j < update_members(om, entries).len() ==> wf_node(
                (#[trigger] update_members(om, entries)[j]).1,
            ),
    decreases entries, 2int,
{
    if entries.len() > 0 {
        lemma_update_members_wf(om, entries.drop_last());
        let prev = update_members(om, entries.drop_last());
        let k = entries.last().0;
        let cv = entries.last().1;
        let node = match member_get(om, k) {
            Option::Some(old) => spec_update(old, cv),
            Option::None => spec_new(cv),
        };
        match member_get(om, k) {
            Option::Some(old) => {
                lemma_member_get_wf(om, k);
                lemma_update_wf(old, cv);
            },
            Option::None => {
                lemma_new_wf(cv);
            },
        }
        lemma_member_insert_sorted(prev, k, node);
        lemma_member_insert(prev, k, node);
        let res = member_insert(prev, k, node);
        assert forall|j: int| 0 <= j < res.len() implies wf_node((#[trigger] res[j]).1) by {
            if res[j] != (k, node) {
                assert(prev.contains(res[j]));
                let idx = choose|idx: int| 0 <= idx < prev.len() && prev[idx] == res[j];
                assert(wf_node(prev[idx].1));
            }
        }
    }
}

pub proof fn lemma_update_values_wf(ov: Seq<NodeView>, items: Seq<ValueView>)
    requires
        forall|j: int| 0 <= j < ov.len() ==> wf_node(#[trigger] ov[j]),
    ensures
        update_values(ov, items).len() == items.len(),
        forall|j: int|
            0 <= j < items.len() ==> wf_node(#[trigger] update_values(ov, items)[j]),
    decreases items, 2int,
{
    if items.len() > 0 {
        lemma_update_values_wf(ov, items.drop_last());
        if items.len() - 1 < ov.len() {
            lemma_update_wf(ov[items.len() - 1], items.last());
        } else {
            lemma_new_wf(items.last());
        }
        assert(forall|j: int|
            0 <= j < items.len() - 1 ==> #[trigger] update_values(ov, items)[j] == update_values(
                ov,
                items.drop_last(),
            )[j]);
    }
}

/// A freshly constructed tree is well formed.
pub proof fn lemma_new_wf(v: ValueView)
    ensures
        wf_node(spec_new(v)),
    decreases v, 0int,
{
    match v {
        ValueView::Scalar { .. } => {},
        ValueView::Object { entries, .. } => {
            lemma_update_members_wf(Seq::empty(), entries);
            lemma_wf_members_index(update_members(Seq::empty(), entries));
        },
        ValueView::Array { items, .. } => {
            lemma_update_values_wf(Seq::empty(), items);
            lemma_wf_values_index(update_values(Seq::empty(), items));
        },
    }
}

/// Reconciling a well-formed tree with any snapshot yields a well-formed
/// tree.
pub proof fn lemma_update_wf(t: NodeView, v: ValueView)
    requires
        wf_node(t),
    ensures
        wf_node(spec_update(t, v)),
    decreases v, 1int,
{
    match (t, v) {
        (NodeView::Scalar { .. }, ValueView::Scalar { .. }) => {},
        (NodeView::Object { members: om, .. }, ValueView::Object { entries, .. }) => {
            lemma_wf_members_index(om);
            lemma_update_members_wf(om, entries);
            lemma_wf_members_index(update_members(om, entries));
        },
        (NodeView::Array { values: ov, .. }, ValueView::Array { items, .. }) => {
            lemma_wf_values_index(ov);
            lemma_update_values_wf(ov, items);
            lemma_wf_values_index(update_values(ov, items));
        },
        (_, _) => {
            lemma_new_wf(v);
        },
    }
}

/// A snapshot with unambiguous object keys: inside every map, each key
/// occurs once.
pub open spec fn wf_value(v: ValueView) -> bool
    decreases v,
{
    match v {
        ValueView::Scalar { .. } => true,
        ValueView::Object { entries, .. } => {
            &&& forall|i: int, j: int|
                0 <= i < j < entries.len() ==> (#[trigger] entries[i]).0 != (
                #[trigger] entries[j]).0
            &&& forall|j: int| 0 <= j < entries.len() ==> wf_value((#[trigger] entries[j]).1)
        },
        ValueView::Array { items, .. } => {
            forall|j: int| 0 <= j < items.len() ==> wf_value(#[trigger] items[j])
        },
    }
}

pub open spec fn entries_has_key(entries: Seq<(Seq<char>, ValueView)>, k: Seq<char>) -> bool {
    exists|j: int| 0 <= j < entries.len() && (#[trigger] entries[j]).0 == k
}

/// The tree shows exactly the snapshot `v`: same shapes, texts,
/// descriptions, keys and lengths, with the change flags left free.
pub open spec fn displays(t: NodeView, v: ValueView) -> bool
    decreases v,
{
    match (t, v) {
        (NodeView::Scalar { value, .. }, ValueView::Scalar { text }) => value == text,
        (
            NodeView::Object { description, members, .. },
            ValueView::Object { description: vd, entries },
        ) => {
            &&& description == vd
            &&& forall|j: int|
                0 <= j < entries.len() ==> member_get(members, (#[trigger] entries[j]).0) is Some
                    && displays(member_get(members, entries[j].0)->Some_0, entries[j].1)
            &&& forall|i: int|
                0 <= i < members.len() ==> entries_has_key(entries, (#[trigger] members[i]).0)
        },
        (
            NodeView::Array { description, values, .. },
            ValueView::Array { description: vd, items },
        ) => {
            &&& description == vd
            &&& values.len() == items.len()
            &&& forall|j: int|
                0 <= j < items.len() ==> displays(#[trigger] values[j], items[j])
        },
        (_, _) => false,
    }
}

/// No change flag is set anywhere in the tree.
pub open spec fn flagless(t: NodeView) -> bool
    decreases t,
{
    match t {
        NodeView::Scalar { changed, .. } => !changed,
        NodeView::Object { members, description_changed, .. } => {
            &&& !description_changed
            &&& forall|j: int| 0 <= j < members.len() ==> flagless((#[trigger] members[j]).1)
        },
        NodeView::Array { values, length_changed, description_changed, .. } => {
            &&& !length_changed
            &&& !description_changed
            &&& forall|j: int| 0 <= j < values.len() ==> flagless(#[trigger] values[j])
        },
    }
}

/// The node an entry reconciles to: the old member of the same key brought
/// up to date, or a fresh tree.
pub open spec fn reconcile_entry(
    om: Seq<(Seq<char>, NodeView)>,
    k: Seq<char>,
    cv: ValueView,
) -> NodeView {
    match member_get(om, k) {
        Option::Some(old) => spec_update(old, cv),
        Option::None => spec_new(cv),
    }
}

/// In a key-sorted member list, looking a stored key up yields exactly the
/// stored node.
pub proof fn lemma_sorted_get(ms: Seq<(Seq<char>, NodeView)>)
    requires
        sorted_members(ms),
    ensures
        forall|i: int|
            0 <= i < ms.len() ==> member_get(ms, (#[trigger] ms[i]).0) == Option::Some(ms[i].1),
{
    assert forall|i: int| 0 <= i < ms.len() implies member_get(ms, (#[trigger] ms[i]).0)
        == Option::Some(ms[i].1) by {
        crate::path::lemma_member_index_of(ms, ms[i].0);
        let idx = crate::path::member_index_of(ms, ms[i].0);
        if idx != i {
            assert(ms[idx].0 == ms[i].0);
            if idx < i {
                assert(str_lt(ms[idx].0, ms[i].0));
            } else {
                assert(str_lt(ms[i].0, ms[idx].0));
            }
            crate::strorder::lemma_str_lt_irrefl(ms[i].0);
        }
    }
}

/// What reconciliation stores under each key: every entry key maps to its
/// reconciled node, and no other key appears.
pub proof fn lemma_update_members_get(
    om: Seq<(Seq<char>, NodeView)>,
    entries: Seq<(Seq<char>, ValueView)>,
)
    requires
        forall|i: int, j: int|
            0 <= i < j < entries.len() ==> (#[trigger] entries[i]).0 != (#[trigger] entries[j]).0,
    ensures
        forall|j: int|
            0 <= j < entries.len() ==> member_get(
                update_members(om, entries),
                (#[trigger] entries[j]).0,
            ) == Option::Some(reconcile_entry(om, entries[j].0, entries[j].1)),
        forall|i: int|
            0 <= i < update_members(om, entries).len() ==> entries_has_key(
                entries,
                (#[trigger] update_members(om, entries)[i]).0,
            ),
    decreases entries,
{
    if entries.len() > 0 {
        let pre = entries.drop_last();
        let k = entries.last().0;
        let cv = entries.last().1;
        let node = reconcile_entry(om, k, cv);
        let built = update_members(om, pre);
        let res = update_members(om, entries);
        assert(forall|i: int| 0 <= i < pre.len() ==> pre[i] == #[trigger] entries[i]);
        lemma_update_members_get(om, pre);
        lemma_member_insert(built, k, node);
        assert(res == member_insert(built, k, node));
        assert forall|j: int| 0 <= j < entries.len() implies member_get(
            res,
            (#[trigger] entries[j]).0,
        ) == Option::Some(reconcile_entry(om, entries[j].0, entries[j].1)) by {
            if j < entries.len() - 1 {
                assert(entries[j].0 != k);
                assert(member_get(res, entries[j].0) == member_get(built, entries[j].0));
            } else {
                assert(entries[j] == entries.last());
            }
        }
        assert forall|i: int| 0 <= i < res.len() implies entries_has_key(
            entries,
            (#[trigger] res[i]).0,
        ) by {
            if res[i] == (k, node) {
                assert(entries[entries.len() - 1].0 == k);
            } else {
                assert(built.contains(res[i]));
                let bi = choose|bi: int| 0 <= bi < built.len() && built[bi] == res[i];
                assert(entries_has_key(pre, built[bi].0));
                let j = choose|j: int| 0 <= j < pre.len() && (#[trigger] pre[j]).0 == built[bi].0;
                assert(entries[j].0 == res[i].0);
            }
        }
    }
}

/// What reconciliation stores at each index of an array: items below the
/// old length are brought up to date, the rest are built fresh.
pub proof fn lemma_update_values_index(ov: Seq<NodeView>, items: Seq<ValueView>)
    ensures
        update_values(ov, items).len() == items.len(),
        forall|i: int|
            0 <= i < items.len() ==> update_values(ov, items)[i] == (if i < ov.len() {
                spec_update(ov[i], #[trigger] items[i])
            } else {
                spec_new(items[i])
            }),
    decreases items,
{
    if items.len() > 0 {
        lemma_update_values_index(ov, items.drop_last());
        assert forall|i: int| 0 <= i < items.len() implies update_values(ov, items)[i] == (if i
            < ov.len() {
            spec_update(ov[i], #[trigger] items[i])
        } else {
            spec_new(items[i])
        }) by {
            if i < items.len() - 1 {
                assert(items.drop_last()[i] == items[i]);
                assert(update_values(ov, items)[i] == update_values(ov, items.drop_last())[i]);
            } else {
                assert(items.last() == items[i]);
            }
        }
    }
}

/// A fresh tree shows its snapshot.
pub proof fn lemma_new_displays(v: ValueView)
    requires
        wf_value(v),
    ensures
        displays(spec_new(v), v),
    decreases v, 0int,
{
    match v {
        ValueView::Scalar { .. } => {},
        ValueView::Object { entries, .. } => {
            lemma_update_members_get(Seq::empty(), entries);
            assert forall|j: int| 0 <= j < entries.len() implies member_get(
                update_members(Seq::empty(), entries),
                (#[trigger] entries[j]).0,
            ) is Some && displays(
                member_get(update_members(Seq::empty(), entries), entries[j].0)->Some_0,
                entries[j].1,
            ) by {
                assert(member_get(Seq::empty(), entries[j].0) is None);
                lemma_new_displays(entries[j].1);
            }
        },
        ValueView::Array { items, .. } => {
            lemma_update_values_index(Seq::empty(), items);
            assert forall|j: int| 0 <= j < items.len() implies displays(
                #[trigger] update_values(Seq::empty(), items)[j],
                items[j],
            ) by {
                lemma_new_displays(items[j]);
            }
        },
    }
}

/// A reconciled tree shows the snapshot it was reconciled with, whatever
/// tree it started from.
pub proof fn lemma_update_displays(t: NodeView, v: ValueView)
    requires
        wf_value(v),
    ensures
        displays(spec_update(t, v), v),
    decreases v, 1int,
{
    match (t, v) {
        (NodeView::Scalar { .. }, ValueView::Scalar { .. }) => {},
        (NodeView::Object { members: om, .. }, ValueView::Object { entries, .. }) => {
            lemma_update_members_get(om, entries);
            assert forall|j: int| 0 <= j < entries.len() implies member_get(
                update_members(om, entries),
                (#[trigger] entries[j]).0,
            ) is Some && displays(
                member_get(update_members(om, entries), entries[j].0)->Some_0,
                entries[j].1,
            ) by {
                match member_get(om, entries[j].0) {
                    Option::Some(old) => {
                        lemma_update_displays(old, entries[j].1);
                    },
                    Option::None => {
                        lemma_new_displays(entries[j].1);
                    },
                }
            }
        },
        (NodeView::Array { values: ov, .. }, ValueView::Array { items, .. }) => {
            lemma_update_values_index(ov, items);
            assert forall|j: int| 0 <= j < items.len() implies displays(
                #[trigger] update_values(ov, items)[j],
                items[j],
            ) by {
                if j < ov.len() {
                    lemma_update_displays(ov[j], items[j]);
                } else {
                    lemma_new_displays(items[j]);
                }
            }
        },
        (_, _) => {
            lemma_new_displays(v);
        },
    }
}

/// Reconciling a tree with the very snapshot it already shows sets no
/// change flag anywhere.
pub proof fn lemma_update_of_shown_is_flagless(t: NodeView, v: ValueView)
    requires
        wf_value(v),
        wf_node(t),
        displays(t, v),
    ensures
        flagless(spec_update(t, v)),
    decreases v,
{
    match (t, v) {
        (NodeView::Scalar { .. }, ValueView::Scalar { .. }) => {},
        (NodeView::Object { members: om, .. }, ValueView::Object { entries, .. }) => {
            lemma_update_members_get(om, entries);
            lemma_wf_members_index(om);
            lemma_update_members_wf(om, entries);
            let res = update_members(om, entries);
            lemma_sorted_get(res);
            assert forall|i: int| 0 <= i < res.len() implies flagless((#[trigger] res[i]).1) by {
                assert(entries_has_key(entries, res[i].0));
                let j = choose|j: int| 0 <= j < entries.len() && (#[trigger] entries[j]).0 == res[
                    i
                ].0;
                assert(member_get(res, entries[j].0) == Option::Some(
                    reconcile_entry(om, entries[j].0, entries[j].1),
                ));
                assert(member_get(res, res[i].0) == Option::Some(res[i].1));
                assert(res[i].1 == reconcile_entry(om, res[i].0, entries[j].1));
                assert(member_get(om, entries[j].0) is Some);
                let old = member_get(om, entries[j].0)->Some_0;
                crate::path::lemma_member_index_of(om, entries[j].0);
                assert(wf_node(old));
                lemma_update_of_shown_is_flagless(old, entries[j].1);
            }
        },
        (NodeView::Array { values: ov, .. }, ValueView::Array { items, .. }) => {
            lemma_update_values_index(ov, items);
            lemma_wf_values_index(ov);
            let res = update_values(ov, items);
            assert forall|i: int| 0 <= i < res.len() implies flagless(#[trigger] res[i]) by {
                assert(res[i] == spec_update(ov[i], items[i]));
                lemma_update_of_shown_is_flagless(ov[i], items[i]);
            }
        },
        (_, _) => {},
    }
}

/// Showing the same snapshot twice in a row highlights nothing: the second
/// reconciliation leaves every change flag clear.
pub proof fn lemma_update_idempotent(t: NodeView, v: ValueView)
    requires
        wf_value(v),
        wf_node(t),
    ensures
        flagless(spec_update(spec_update(t, v), v)),
{
    lemma_update_displays(t, v);
    lemma_update_wf(t, v);
    lemma_update_of_shown_is_flagless(spec_update(t, v), v);
}

/// Fold state survives an update: a member that keeps its key across a
/// reconciliation keeps its `extended` flag whenever old and new child are
/// containers of the same shape, however its contents changed.
pub proof fn lemma_update_preserves_fold(t: NodeView, v: ValueView, j: int)
    requires
        t is Object,
        v is Object,
        forall|i1: int, i2: int|
            0 <= i1 < i2 < v->Object_entries.len() ==> (#[trigger] v->Object_entries[i1]).0 != (
            #[trigger] v->Object_entries[i2]).0,
        0 <= j < v->Object_entries.len(),
        member_get(t->Object_members, v->Object_entries[j].0) is Some,
    ensures
        member_get(spec_update(t, v)->Object_members, v->Object_entries[j].0) == Option::Some(
            spec_update(
                member_get(t->Object_members, v->Object_entries[j].0)->Some_0,
                v->Object_entries[j].1,
            ),
        ),
        (member_get(t->Object_members, v->Object_entries[j].0)->Some_0 is Object
            && v->Object_entries[j].1 is Object) ==> spec_update(
            member_get(t->Object_members, v->Object_entries[j].0)->Some_0,
            v->Object_entries[j].1,
        )->Object_extended == member_get(
            t->Object_members,
            v->Object_entries[j].0,
        )->Some_0->Object_extended,
{
    lemma_update_members_get(t->Object_members, v->Object_entries);
}

fn clone_opt_string(o: &Option<String>) -> (r: Option<String>)
    ensures
        option_string_view(r) == option_string_view(*o),
{
    match o {
        Option::Some(s) => Option::Some(s.clone()),
        Option::None => Option::None,
    }
}

fn opt_string_eq(a: &Option<String>, b: &Option<String>) -> (r: bool)
    ensures
        r == (option_string_view(*a) == option_string_view(*b)),
{
    match (a, b) {
        (Option::Some(x), Option::Some(y)) => *x == *y,
        (Option::None, Option::None) => true,
        (_, _) => false,
    }
}

/// Insert `(key, t)` into a member list kept sorted by key, replacing the
/// entry for `key` if it is already present.
fn insert_member(ms: &mut Vec<(String, DisplayValue)>, key: String, t: DisplayValue)
    ensures
        member_node_views(final(ms)@) == member_insert(
            member_node_views(old(ms)@),
            key@,
            t@,
        ),
{
    let ghost v0 = member_node_views(ms@);
    proof {
        lemma_member_node_views(ms@);
        assert(v0.skip(0) =~= v0);
        assert(member_insert(v0, key@, t@) =~= v0.take(0) + member_insert(v0.skip(0), key@, t@));
    }
    let ghost orig = ms@;
    let mut i: usize = 0;
    loop
        invariant
            i <= orig.len(),
            orig == old(ms)@,
            ms@ == orig,
            v0 == member_node_views(orig),
            v0.len() == orig.len(),
            forall|j: int|
                0 <= j < orig.len() ==> v0[j] == ((#[trigger] orig[j]).0@, display_value_view(orig[j].1)),
            member_insert(v0, key@, t@) == v0.take(i as int) + member_insert(
                v0.skip(i as int),
                key@,
                t@,
            ),
        decreases orig.len() - i,
    {
        if i == ms.len() {
            ms.push((key, t));
            proof {
                assert(ms@.drop_last() =~= orig);
                assert(member_node_views(ms@) == v0.push((key@, t@)));
                assert(member_insert(v0.skip(i as int), key@, t@) =~= seq![(key@, t@)]);
                assert(v0.take(i as int) =~= v0);
                assert(v0 + seq![(key@, t@)] =~= v0.push((key@, t@)));
                assert(member_insert(v0, key@, t@) == v0.push((key@, t@)));
                assert(member_node_views(ms@) == member_insert(member_node_views(old(ms)@), key@, t@));
            }
            return;
        }
        let head_lt = str_lt_exec(ms[i].0.as_str(), key.as_str());
        if !head_lt {
            let key_here = key == ms[i].0;
            proof {
                crate::strorder::lemma_str_lt_connex(key@, orig[i as int].0@);
                assert(v0.skip(i as int)[0] == v0[i as int]);
            }
            if key_here {
                let _ = ms.remove(i);
                ms.insert(i, (key, t));
                proof {
                    assert(ms@ =~= orig.update(i as int, (key, t)));
                    assert(v0.skip(i as int).drop_first() =~= v0.skip(i + 1));
                    assert(member_insert(v0.skip(i as int), key@, t@) =~= seq![(key@, t@)]
                        + v0.skip(i + 1));
                    assert(member_node_views(ms@) =~= v0.take(i as int) + (seq![(key@, t@)]
                        + v0.skip(i + 1))) by {
                        lemma_member_node_views(ms@);
                        assert forall|j: int| 0 <= j < ms@.len() implies member_node_views(ms@)[j]
                            == (v0.take(i as int) + (seq![(key@, t@)] + v0.skip(i + 1)))[j] by {
                            if j == i {
                                assert(ms@[j] == (key, t));
                            } else {
                                assert(ms@[j] == orig[j]);
                            }
                        }
                    }
                }
                return;
            } else {
                ms.insert(i, (key, t));
                proof {
                    assert(str_lt(key@, v0.skip(i as int)[0].0));
                    assert(member_insert(v0.skip(i as int), key@, t@) =~= seq![(key@, t@)]
                        + v0.skip(i as int));
                    assert(member_node_views(ms@) =~= v0.take(i as int) + (seq![(key@, t@)]
                        + v0.skip(i as int))) by {
                        lemma_member_node_views(ms@);
                        assert forall|j: int| 0 <= j < ms@.len() implies member_node_views(ms@)[j]
                            == (v0.take(i as int) + (seq![(key@, t@)] + v0.skip(i as int)))[j] by {
                            if j < i {
                                assert(ms@[j] == orig[j]);
                            } else if j == i {
                                assert(ms@[j] == (key, t));
                            } else {
                                assert(ms@[j] == orig[j - 1]);
                                assert((v0.take(i as int) + (seq![(key@, t@)] + v0.skip(
                                    i as int,
                                )))[j] == v0[j - 1]);
                            }
                        }
                    }
                }
                return;
            }
        }
        proof {
            crate::strorder::lemma_str_lt_irrefl(orig[i as int].0@);
            crate::strorder::lemma_str_lt_connex(key@, orig[i as int].0@);
            assert(v0.skip(i as int)[0] == v0[i as int]);
            assert(v0.skip(i as int).drop_first() =~= v0.skip(i + 1));
            assert(member_insert(v0.skip(i as int), key@, t@) =~= seq![v0[i as int]]
                + member_insert(v0.skip(i + 1), key@, t@));
            assert(v0.take(i as int) + (seq![v0[i as int]] + member_insert(
                v0.skip(i + 1),
                key@,
                t@,
            )) =~= v0.take(i + 1) + member_insert(v0.skip(i + 1), key@, t@));
        }
        i += 1;
    }
}

impl DisplayScalar {
    pub fn new(value: String) -> (r: DisplayScalar)
        ensures
            r@ == (NodeView::Scalar { value: value@, changed: false }),
    {
        DisplayScalar { value, changed: false }
    }

    pub fn update(&self, new_value: String) -> (r: DisplayScalar)
        ensures
            r@ == spec_update(self@, ValueView::Scalar { text: new_value@ }),
    {
        let changed = self.value != new_value;
        DisplayScalar { value: new_value, changed }
    }
}

impl DisplayObject {
    /// Flip this object between folded and extended.
    pub fn toggle_visibility(&mut self)
        ensures
            final(self).extended == !old(self).extended,
            final(self).description == old(self).description,
            final(self).members == old(self).members,
            final(self).description_changed == old(self).description_changed,
    {
        self.extended = !self.extended;
    }

    /// The member stored under `key`, if any.
    pub fn get_member<'a>(&'a self, key: &String) -> (r: Option<&'a DisplayValue>)
        ensures
            match r {
                Option::Some(t) => member_get(member_node_views(self.members@), key@)
                    == Option::Some(t@),
                Option::None => member_get(member_node_views(self.members@), key@) is None,
            },
    {
        let ghost v0 = member_node_views(self.members@);
        proof {
            lemma_member_node_views(self.members@);
            assert(v0.skip(0) =~= v0);
        }
        let mut i: usize = 0;
        while i < self.members.len()
            invariant
                i <= self.members@.len(),
                v0 == member_node_views(self.members@),
                v0.len() == self.members@.len(),
                forall|j: int|
                    0 <= j < self.members@.len() ==> v0[j] == (
                        (#[trigger] self.members@[j]).0@,
                        display_value_view(self.members@[j].1),
                    ),
                member_get(v0, key@) == member_get(v0.skip(i as int), key@),
            decreases self.members@.len() - i,
        {
            proof {
                assert(v0.skip(i as int)[0] == v0[i as int]);
            }
            if self.members[i].0 == *key {
                return Option::Some(&self.members[i].1);
            }
            proof {
                assert(v0.skip(i as int).drop_first() =~= v0.skip(i + 1));
            }
            i += 1;
        }
        proof {
            assert(v0.skip(i as int).len() == 0);
        }
        Option::None
    }

    pub fn new(description: &Option<String>, entries: &Vec<(String, ValueVariant)>) -> (r:
        DisplayObject)
        ensures
            r@ == spec_new(
                ValueView::Object {
                    description: option_string_view(*description),
                    entries: crate::entry_views(entries@),
                },
            ),
        decreases entries, 1int,
    {
        let ghost ev = crate::entry_views(entries@);
        proof {
            crate::lemma_entry_views(entries@);
            assert(ev.take(0) =~= Seq::empty());
        }
        let mut members: Vec<(String, DisplayValue)> = Vec::new();
        let mut i: usize = 0;
        while i < entries.len()
            invariant
                i <= entries@.len(),
                ev == crate::entry_views(entries@),
                ev.len() == entries@.len(),
                forall|j: int|
                    0 <= j < entries@.len() ==> ev[j] == (
                        (#[trigger] entries@[j]).0@,
                        crate::value_variant_view(entries@[j].1),
                    ),
                member_node_views(members@) == update_members(Seq::empty(), ev.take(i as int)),
            decreases entries@.len() - i,
        {
            let node = DisplayValue::new(&entries[i].1);
            let key = entries[i].0.clone();
            proof {
                assert(ev.take(i + 1).drop_last() =~= ev.take(i as int));
                assert(ev.take(i + 1).last() == ev[i as int]);
            }
            insert_member(&mut members, key, node);
            i += 1;
        }
        proof {
            assert(ev.take(entries@.len() as int) =~= ev);
        }
        DisplayObject {
            description: clone_opt_string(description),
            members,
            extended: true,
            description_changed: false,
        }
    }

    pub fn update(&self, description: &Option<String>, entries: &Vec<(String, ValueVariant)>) -> (r:
        DisplayObject)
        ensures
            r@ == spec_update(
                self@,
                ValueView::Object {
                    description: option_string_view(*description),
                    entries: crate::entry_views(entries@),
                },
            ),
        decreases entries, 1int,
    {
        let ghost om = member_node_views(self.members@);
        let ghost ev = crate::entry_views(entries@);
        proof {
            crate::lemma_entry_views(entries@);
            assert(ev.take(0) =~= Seq::empty());
        }
        let description_changed = !opt_string_eq(&self.description, description);
        let mut members: Vec<(String, DisplayValue)> = Vec::new();
        let mut i: usize = 0;
        while i < entries.len()
            invariant
                i <= entries@.len(),
                om == member_node_views(self.members@),
                ev == crate::entry_views(entries@),
                ev.len() == entries@.len(),
                forall|j: int|
                    0 <= j < entries@.len() ==> ev[j] == (
                        (#[trigger] entries@[j]).0@,
                        crate::value_variant_view(entries@[j].1),
                    ),
                member_node_views(members@) == update_members(om, ev.take(i as int)),
            decreases entries@.len() - i,
        {
            let node = match self.get_member(&entries[i].0) {
                Option::Some(old_val) => old_val.update(&entries[i].1),
                Option::None => DisplayValue::new(&entries[i].1),
            };
            let key = entries[i].0.clone();
            proof {
                assert(ev.take(i + 1).drop_last() =~= ev.take(i as int));
                assert(ev.take(i + 1).last() == ev[i as int]);
            }
            insert_member(&mut members, key, node);
            i += 1;
        }
        proof {
            assert(ev.take(entries@.len() as int) =~= ev);
        }
        DisplayObject {
            description: clone_opt_string(description),
            members,
            extended: self.extended,
            description_changed,
        }
    }
}

impl DisplayArray {
    /// Flip this array between folded and extended.
    pub fn toggle_visibility(&mut self)
        ensures
            final(self).extended == !old(self).extended,
            final(self).description == old(self).description,
            final(self).values == old(self).values,
            final(self).num_extended == old(self).num_extended,
            final(self).length_changed == old(self).length_changed,
            final(self).description_changed == old(self).description_changed,
    {
        self.extended = !self.extended;
    }

    /// Show one more item. Callers must check `can_grow` first.
    pub fn grow(&mut self)
        requires
            old(self).num_extended < old(self).values@.len(),
        ensures
            final(self).num_extended == old(self).num_extended + 1,
            final(self).extended == old(self).extended,
            final(self).description == old(self).description,
            final(self).values == old(self).values,
            final(self).length_changed == old(self).length_changed,
            final(self).description_changed == old(self).description_changed,
    {
        let n = self.values.len();
        self.num_extended += 1;
    }

    /// Show one item fewer. Callers must check `can_shrink` first.
    pub fn shrink(&mut self)
        requires
            old(self).num_extended > 0,
        ensures
            final(self).num_extended == old(self).num_extended - 1,
            final(self).extended == old(self).extended,
            final(self).description == old(self).description,
            final(self).values == old(self).values,
            final(self).length_changed == old(self).length_changed,
            final(self).description_changed == old(self).description_changed,
    {
        self.num_extended -= 1;
    }

    pub fn can_grow(&self) -> (r: bool)
        ensures
            r == (self.num_extended < self.values@.len()),
    {
        self.num_extended < self.values.len()
    }

    pub fn can_shrink(&self) -> (r: bool)
        ensures
            r == (self.num_extended > 0),
    {
        self.num_extended > 0
    }

    pub fn new(description: &Option<String>, items: &Vec<ValueVariant>) -> (r: DisplayArray)
        ensures
            r@ == spec_new(
                ValueView::Array {
                    description: option_string_view(*description),
                    items: crate::item_views(items@),
                },
            ),
        decreases items, 1int,
    {
        let ghost iv = crate::item_views(items@);
        proof {
            crate::lemma_item_views(items@);
            assert(iv.take(0) =~= Seq::empty());
        }
        let mut values: Vec<DisplayValue> = Vec::new();
        let mut i: usize = 0;
        while i < items.len()
            invariant
                i <= items@.len(),
                iv == crate::item_views(items@),
                iv.len() == items@.len(),
                forall|j: int|
                    0 <= j < items@.len() ==> iv[j] == crate::value_variant_view(
                        #[trigger] items@[j],
                    ),
                values@.len() == i,
                node_views(values@) == update_values(Seq::empty(), iv.take(i as int)),
            decreases items@.len() - i,
        {
            let node = DisplayValue::new(&items[i]);
            proof {
                assert(iv.take(i + 1).drop_last() =~= iv.take(i as int));
                assert(iv.take(i + 1).last() == iv[i as int]);
                assert((values@.push(node)).drop_last() =~= values@);
            }
            values.push(node);
            i += 1;
        }
        proof {
            assert(iv.take(items@.len() as int) =~= iv);
        }
        let num_extended = if values.len() < 3 {
            values.len()
        } else {
            3
        };
        DisplayArray {
            description: clone_opt_string(description),
            values,
            extended: true,
            num_extended,
            length_changed: false,
            description_changed: false,
        }
    }

    pub fn update(&self, description: &Option<String>, items: &Vec<ValueVariant>) -> (r:
        DisplayArray)
        ensures
            r@ == spec_update(
                self@,
                ValueView::Array {
                    description: option_string_view(*description),
                    items: crate::item_views(items@),
                },
            ),
        decreases items, 1int,
    {
        let ghost ov = node_views(self.values@);
        let ghost iv = crate::item_views(items@);
        proof {
            crate::lemma_item_views(items@);
            lemma_node_views(self.values@);
            assert(iv.take(0) =~= Seq::empty());
        }
        let mut values: Vec<DisplayValue> = Vec::new();
        let mut i: usize = 0;
        while i < items.len()
            invariant
                i <= items@.len(),
                ov == node_views(self.values@),
                ov.len() == self.values@.len(),
                iv == crate::item_views(items@),
                iv.len() == items@.len(),
                forall|j: int|
                    0 <= j < items@.len() ==> iv[j] == crate::value_variant_view(
                        #[trigger] items@[j],
                    ),
                forall|j: int|
                    0 <= j < self.values@.len() ==> ov[j] == display_value_view(
                        #[trigger] self.values@[j],
                    ),
                values@.len() == i,
                node_views(values@) == update_values(ov, iv.take(i as int)),
            decreases items@.len() - i,
        {
            let node = if i < self.values.len() {
                self.values[i].update(&items[i])
            } else {
                DisplayValue::new(&items[i])
            };
            proof {
                assert(iv.take(i + 1).drop_last() =~= iv.take(i as int));
                assert(iv.take(i + 1).last() == iv[i as int]);
                assert((values@.push(node)).drop_last() =~= values@);
            }
            values.push(node);
            i += 1;
        }
        proof {
            assert(iv.take(items@.len() as int) =~= iv);
        }
        let num_extended = if self.num_extended < values.len() {
            self.num_extended
        } else {
            values.len()
        };
        let length_changed = self.values.len() != values.len();
        let description_changed = !opt_string_eq(&self.description, description);
        DisplayArray {
            description: clone_opt_string(description),
            values,
            extended: self.extended,
            num_extended,
            length_changed,
            description_changed,
        }
    }
}

impl DisplayValue {
    /// Build a fresh tree for `value`: no change flags, everything
    /// extended, arrays showing at most three items.
    pub fn new(value: &ValueVariant) -> (t: DisplayValue)
        ensures
            t@ == spec_new(value@),
        decreases value, 0int,
    {
        match value {
            ValueVariant::Scalar(s) => DisplayValue::Scalar(DisplayScalar::new(s.clone())),
            ValueVariant::Object(d, entries) => DisplayValue::Object(DisplayObject::new(d, entries)),
            ValueVariant::Array(d, items) => DisplayValue::Array(DisplayArray::new(d, items)),
        }
    }

    /// The scalar behind this node; callers must know the node is one.
    pub fn unwrap_scalar_ref(&self) -> (r: &DisplayScalar)
        requires
            self is Scalar,
        ensures
            r@ == self@,
    {
        match self {
            DisplayValue::Scalar(val) => val,
            _ => unreached(),
        }
    }

    /// The object behind this node; callers must know the node is one.
    pub fn unwrap_object_ref(&self) -> (r: &DisplayObject)
        requires
            self is Object,
        ensures
            r@ == self@,
    {
        match self {
            DisplayValue::Object(val) => val,
            _ => unreached(),
        }
    }

    /// Mutable access to the object behind this node.
    pub fn unwrap_object_ref_mut(&mut self) -> (r: &mut DisplayObject)
        requires
            *old(self) is Object,
        ensures
            *r == (*old(self))->Object_0,
            *final(self) == DisplayValue::Object(*final(r)),
    {
        match self {
            DisplayValue::Object(val) => val,
            _ => unreached(),
        }
    }

    /// The array behind this node; callers must know the node is one.
    pub fn unwrap_array_ref(&self) -> (r: &DisplayArray)
        requires
            self is Array,
        ensures
            r@ == self@,
    {
        match self {
            DisplayValue::Array(val) => val,
            _ => unreached(),
        }
    }

    /// Mutable access to the array behind this node.
    pub fn unwrap_array_ref_mut(&mut self) -> (r: &mut DisplayArray)
        requires
            *old(self) is Array,
        ensures
            *r == (*old(self))->Array_0,
            *final(self) == DisplayValue::Array(*final(r)),
    {
        match self {
            DisplayValue::Array(val) => val,
            _ => unreached(),
        }
    }

    /// Reconcile this tree against the next snapshot `value`.
    pub fn update(&self, value: &ValueVariant) -> (t: DisplayValue)
        ensures
            t@ == spec_update(self@, value@),
        decreases value, 1int,
    {
        match (self, value) {
            (DisplayValue::Scalar(old_val), ValueVariant::Scalar(s)) => DisplayValue::Scalar(
                old_val.update(s.clone()),
            ),
            (DisplayValue::Object(old_val), ValueVariant::Object(d, entries)) => DisplayValue::Object(
                old_val.update(d, entries),
            ),
            (DisplayValue::Array(old_val), ValueVariant::Array(d, items)) => DisplayValue::Array(
                old_val.update(d, items),
            ),
            (_, _) => {
                let mut val = Self::new(value);
                match &mut val {
                    DisplayValue::Scalar(v) => {
                        v.changed = true;
                    },
                    DisplayValue::Object(_) => {},
                    DisplayValue::Array(_) => {},
                }
                val
            },
        }
    }
}

} // verus!
