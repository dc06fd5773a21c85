//! An interactive, foldable view of structured values (scalars, arrays,
//! ordered key/value maps) with per-node change highlighting.
//!
//! The crate models a *diff tree* ([`displayvalue::DisplayValue`]) that is
//! rebuilt from a fresh snapshot of the value on every update, migrating
//! fold state and computing change flags against the previous tree, and a
//! *navigation engine* ([`path::Path`]) that maintains the single active
//! interaction point across those updates.

use vstd::prelude::*;

pub mod displayvalue;
pub mod path;
pub mod strorder;

verus! {

broadcast use vstd::std_specs::vec::group_vec_axioms;

/// One snapshot of the value to display: a scalar rendered as text, an
/// indexed sequence, or an ordered set of key/value pairs, each container
/// with an optional description. This is the input shape produced by a
/// value adapter for a concrete source format.
pub enum ValueVariant {
    Scalar(String),
    Array(Option<String>, Vec<ValueVariant>),
    Object(Option<String>, Vec<(String, ValueVariant)>),
}

/// Mathematical model of a [`ValueVariant`]: strings become sequences of
/// characters, vectors become sequences.
#[verifier::ext_equal]
pub enum ValueView {
    Scalar { text: Seq<char> },
    Array { description: Option<Seq<char>>, items: Seq<ValueView> },
    Object { description: Option<Seq<char>>, entries: Seq<(Seq<char>, ValueView)> },
}

pub open spec fn option_string_view(o: Option<String>) -> Option<Seq<char>> {
    match o {
        Option::Some(s) => Option::Some(s@),
        Option::None => Option::None,
    }
}

pub open spec fn item_views(items: Seq<ValueVariant>) -> Seq<ValueView>
    decreases items,
{
    if items.len() == 0 {
        Seq::empty()
    } else {
        item_views(items.drop_last()).push(value_variant_view(items.last()))
    }
}

pub open spec fn entry_views(entries: Seq<(String, ValueVariant)>) -> Seq<(Seq<char>, ValueView)>
    decreases entries,
{
    if entries.len() == 0 {
        Seq::empty()
    } else {
        entry_views(entries.drop_last()).push(
            (entries.last().0@, value_variant_view(entries.last().1)),
        )
    }
}

pub open spec fn value_variant_view(v: ValueVariant) -> ValueView
    decreases v,
{
    match v {
        ValueVariant::Scalar(s) => ValueView::Scalar { text: s@ },
        ValueVariant::Array(d, items) => ValueView::Array {
            description: option_string_view(d),
            items: item_views(items@),
        },
        ValueVariant::Object(d, entries) => ValueView::Object {
            description: option_string_view(d),
            entries: entry_views(entries@),
        },
    }
}

impl View for ValueVariant {
    type V = ValueView;

    open spec fn view(&self) -> ValueView {
        value_variant_view(*self)
    }
}

pub proof fn lemma_item_views(items: Seq<ValueVariant>)
    ensures
        item_views(items).len() == items.len(),
        forall|i: int|
            0 <= i < items.len() ==> item_views(items)[i] == value_variant_view(#[trigger] items[i]),
    decreases items,
{
    if items.len() > 0 {
        lemma_item_views(items.drop_last());
        assert forall|i: int| 0 <= i < items.len() implies item_views(items)[i]
            == value_variant_view(#[trigger] items[i]) by {
            if i < items.len() - 1 {
                assert(items.drop_last()[i] == items[i]);
                assert(item_views(items)[i] == item_views(items.drop_last())[i]);
            } else {
                assert(items.last() == items[i]);
            }
        }
    }
}

pub proof fn lemma_entry_views(entries: Seq<(String, ValueVariant)>)
    ensures
        entry_views(entries).len() == entries.len(),
        forall|i: int|
            0 <= i < entries.len() ==> entry_views(entries)[i] == (
                (#[trigger] entries[i]).0@,
                value_variant_view(entries[i].1),
            ),
    decreases entries,
{
    if entries.len() > 0 {
        lemma_entry_views(entries.drop_last());
        assert forall|i: int| 0 <= i < entries.len() implies entry_views(entries)[i] == (
            (#[trigger] entries[i]).0@,
            value_variant_view(entries[i].1),
        ) by {
            if i < entries.len() - 1 {
                assert(entries.drop_last()[i] == entries[i]);
                assert(entry_views(entries)[i] == entry_views(entries.drop_last())[i]);
            } else {
                assert(entries.last() == entries[i]);
            }
        }
    }
}

/// A viewer over one structured value: the current diff tree plus the
/// single active interaction point. Replace the value with `reset` (no
/// change flags) or `update` (change flags against the previous value);
/// move the active point with `select_next` / `select_previous`; interact
/// with it through `toggle_active_element`. After every replacement or
/// action the active address is repaired, so it always names an existing
/// point.
pub struct JsonViewer {
    pub value: displayvalue::DisplayValue,
    pub active_element: path::Path,
}

impl JsonViewer {
    /// The tree is well formed and the active address names one of its
    /// points. Every constructor and method of the viewer keeps this.
    pub open spec fn wf(self) -> bool {
        &&& displayvalue::wf_node(self.value@)
        &&& path::valid_path(self.value@, self.active_element@)
    }

    /// Create a viewer for `value`, with the tree's first point active.
    pub fn new(value: &ValueVariant) -> (r: JsonViewer)
        ensures
            r.wf(),
            r.value@ == displayvalue::spec_new(value@),
            r.active_element@ == path::first_point(r.value@),
    {
        let mut res = JsonViewer {
            value: displayvalue::DisplayValue::new(value),
            active_element: path::Path::Scalar,
        };
        proof {
            displayvalue::lemma_new_wf(value@);
        }
        res.fix_active_element_path();
        proof {
            assert(path::repair_path(res.value@, path::PathView::Scalar) == path::first_point(
                res.value@,
            ));
        }
        res
    }

    /// Show a new value and carry no change flags over: the previous tree
    /// is discarded, only the active address is repaired against the new
    /// one.
    pub fn reset(&mut self, value: &ValueVariant)
        ensures
            final(self).wf(),
            final(self).value@ == displayvalue::spec_new(value@),
            final(self).active_element@ == path::repair_path(
                final(self).value@,
                old(self).active_element@,
            ),
    {
        self.value = displayvalue::DisplayValue::new(value);
        proof {
            displayvalue::lemma_new_wf(value@);
        }
        self.fix_active_element_path();
    }

    /// Show a new value, reconciled against the previous one: fold state
    /// is kept where keys and indices still match, change flags mark what
    /// differs from the previous snapshot, and the active address is
    /// repaired.
    pub fn update(&mut self, value: &ValueVariant)
        requires
            old(self).wf(),
        ensures
            final(self).wf(),
            final(self).value@ == displayvalue::spec_update(old(self).value@, value@),
            final(self).active_element@ == path::repair_path(
                final(self).value@,
                old(self).active_element@,
            ),
    {
        let new_value = self.value.update(value);
        proof {
            displayvalue::lemma_update_wf(self.value@, value@);
        }
        self.value = new_value;
        self.fix_active_element_path();
    }

    /// Move the active point to the next one in the canonical order;
    /// fails, changing nothing, at the last point.
    pub fn select_next(&mut self) -> (r: Result<(), ()>)
        requires
            old(self).wf(),
        ensures
            final(self).wf(),
            final(self).value == old(self).value,
            ({
                let pts = path::points(old(self).value@);
                let i = pts.index_of(old(self).active_element@);
                match r {
                    Result::Ok(()) => i + 1 < pts.len() && final(self).active_element@ == pts[i
                        + 1],
                    Result::Err(()) => i + 1 == pts.len() && final(self).active_element@ == old(
                        self,
                    ).active_element@,
                }
            }),
    {
        proof {
            path::lemma_points(self.value@);
        }
        if let Option::Some(new_path) = self.active_element.find_next_path(&self.value) {
            proof {
                let pts = path::points(self.value@);
                let i = pts.index_of(self.active_element@);
                assert(pts.contains(pts[i + 1]));
            }
            self.active_element = new_path;
            Result::Ok(())
        } else {
            Result::Err(())
        }
    }

    /// Move the active point to the previous one in the canonical order;
    /// fails, changing nothing, at the first point.
    pub fn select_previous(&mut self) -> (r: Result<(), ()>)
        requires
            old(self).wf(),
        ensures
            final(self).wf(),
            final(self).value == old(self).value,
            ({
                let pts = path::points(old(self).value@);
                let i = pts.index_of(old(self).active_element@);
                match r {
                    Result::Ok(()) => i >= 1 && final(self).active_element@ == pts[i - 1],
                    Result::Err(()) => i == 0 && final(self).active_element@ == old(
                        self,
                    ).active_element@,
                }
            }),
    {
        proof {
            path::lemma_points(self.value@);
        }
        if let Option::Some(new_path) = self.active_element.find_previous_path(&self.value) {
            proof {
                let pts = path::points(self.value@);
                let i = pts.index_of(self.active_element@);
                assert(pts.contains(pts[i - 1]));
            }
            self.active_element = new_path;
            Result::Ok(())
        } else {
            Result::Err(())
        }
    }

    fn fix_active_element_path(&mut self)
        ensures
            final(self).value == old(self).value,
            final(self).active_element@ == path::repair_path(
                old(self).value@,
                old(self).active_element@,
            ),
            displayvalue::wf_node(old(self).value@) ==> final(self).wf(),
    {
        let fixed = self.active_element.fix_path_for_value(&self.value);
        self.active_element = fixed;
        proof {
            path::lemma_repair_valid(self.value@, old(self).active_element@);
        }
    }

    /// Perform the action bound to the active point: toggle the fold state
    /// of a container, or grow or shrink an array. Fails, with the viewer
    /// unchanged, when the point carries no action or the action is
    /// currently not allowed; afterwards the active address is repaired
    /// against the (possibly refolded) tree.
    pub fn toggle_active_element(&mut self) -> (r: Result<(), ()>)
        requires
            old(self).wf(),
        ensures
            final(self).wf(),
            ({
                match path::act_on(old(self).value@, old(self).active_element@) {
                    Option::Some(t2) => {
                        &&& r is Ok
                        &&& final(self).value@ == t2
                        &&& final(self).active_element@ == path::repair_path(
                            t2,
                            old(self).active_element@,
                        )
                    },
                    Option::None => {
                        &&& r is Err
                        &&& final(self).value@ == old(self).value@
                        &&& final(self).active_element@ == old(self).active_element@
                    },
                }
            }),
    {
        let res = self.active_element.find_and_act_on_element(&mut self.value);
        proof {
            if path::act_on(old(self).value@, old(self).active_element@) is Some {
                path::lemma_act_wf(old(self).value@, old(self).active_element@);
            }
            if path::act_on(old(self).value@, old(self).active_element@) is None {
                path::lemma_repair_identity(self.value@, self.active_element@);
            }
        }
        self.fix_active_element_path();
        res
    }
}

} // verus!
