//! The laws the library answers for: statements that relate several
//! operations, proved once and for all over the mathematical models.

use vstd::prelude::*;

verus! {

use crate::model::{LabelView, Mark, ValueView, key_names, lemma_map_idx, map_has, map_put};
use crate::builder::{BuilderView, EventView, Warning, anchor_get, initial_builder,
    push_top_sequence, put_top_mapping, spec_add_alias, spec_step, top_is_mapping, top_is_sequence};
use crate::parse::run_events;
use crate::pointer::{PathStepView, nav, nav_opt};

/// Mapping key order is first-occurrence declaration order: writing to a
/// key already present changes no key's place (the value is replaced
/// where the key first appeared), and a new key goes to the end.
pub proof fn lemma_key_order(entries: Seq<(LabelView, ValueView)>, label: LabelView, v: ValueView)
    ensures
        map_has(entries, label.name) ==> key_names(map_put(entries, label, v)) == key_names(
            entries,
        ),
        !map_has(entries, label.name) ==> key_names(map_put(entries, label, v)) == key_names(
            entries,
        ).push(label.name),
{
    if map_has(entries, label.name) {
        lemma_map_idx(entries, label.name);
        assert(key_names(map_put(entries, label, v)) =~= key_names(entries));
    } else {
        assert(key_names(map_put(entries, label, v)) =~= key_names(entries).push(label.name));
    }
}

/// Whether a step's kind fits a node's kind: a property step fits only a
/// mapping, an index step only a sequence.
pub open spec fn step_matches(v: ValueView, s: PathStepView) -> bool {
    match s {
        PathStepView::Property(name) => v is Mapping,
        PathStepView::Index(i) => v is Sequence,
    }
}

/// The position stored at a node's head.
pub open spec fn value_mark(v: ValueView) -> Mark {
    match v {
        ValueView::String(_, m) => m,
        ValueView::Sequence(_, m) => m,
        ValueView::Mapping(_, _, m) => m,
    }
}

/// Content equality of two values, ignoring every position and a
/// mapping's own key: same scalar text, same lengths, same key names,
/// equal children in order.
pub open spec fn structurally_eq(a: ValueView, b: ValueView) -> bool
    decreases a,
{
    match (a, b) {
        (ValueView::String(s1, _), ValueView::String(s2, _)) => s1 == s2,
        (ValueView::Sequence(i1, _), ValueView::Sequence(i2, _)) => i1.len() == i2.len()
            && forall|k: int|
            0 <= k < i1.len() ==> structurally_eq(#[trigger] i1[k], i2[k]),
        (ValueView::Mapping(_, e1, _), ValueView::Mapping(_, e2, _)) => e1.len() == e2.len()
            && forall|k: int|
            0 <= k < e1.len() ==> (#[trigger] e1[k]).0.name == e2[k].0.name && structurally_eq(
                e1[k].1,
                e2[k].1,
            ),
        _ => false,
    }
}

/// Every value is structurally equal to itself.
pub proof fn lemma_structurally_eq_refl(v: ValueView)
    ensures
        structurally_eq(v, v),
    decreases v,
{
    match v {
        ValueView::String(s, m) => {},
        ValueView::Sequence(items, m) => {
            assert forall|k: int| 0 <= k < items.len() implies structurally_eq(
                #[trigger] items[k],
                items[k],
            ) by {
                lemma_structurally_eq_refl(items[k]);
            }
        },
        ValueView::Mapping(label, entries, m) => {
            assert forall|k: int| 0 <= k < entries.len() implies (#[trigger] entries[k]).0.name
                == entries[k].0.name && structurally_eq(entries[k].1, entries[k].1) by {
                lemma_structurally_eq_refl(entries[k].1);
            }
        },
    }
}

/// A resolved alias inserts the anchored value itself. In particular what
/// lands in the tree is structurally equal to the anchor's value and
/// carries the anchor's own position; the alias site's position plays no
/// part in the outcome at all.
pub proof fn lemma_alias_resolution(b: BuilderView, id: usize, mark1: Mark, mark2: Mark)
    requires
        anchor_get(b.anchors, id) is Some,
    ensures
        spec_step(b, EventView::Alias(id), mark1) == spec_add_alias(
            b,
            anchor_get(b.anchors, id)->0,
        ),
        spec_step(b, EventView::Alias(id), mark1) == spec_step(b, EventView::Alias(id), mark2),
        structurally_eq(anchor_get(b.anchors, id)->0, anchor_get(b.anchors, id)->0),
{
    lemma_structurally_eq_refl(anchor_get(b.anchors, id)->0);
}

/// A resolved alias appended to an open sequence puts the anchored value,
/// with its original position, at the end of that sequence.
pub proof fn lemma_alias_into_sequence(b: BuilderView, id: usize, mark: Mark)
    requires
        anchor_get(b.anchors, id) is Some,
        b.current_label is None,
        top_is_sequence(b.stack),
    ensures
        ({
            let v = anchor_get(b.anchors, id)->0;
            let items2 = spec_step(b, EventView::Alias(id), mark).stack.last().value->Sequence_0;
            &&& items2 == b.stack.last().value->Sequence_0.push(v)
            &&& structurally_eq(items2.last(), v)
            &&& value_mark(items2.last()) == value_mark(v)
        }),
{
    let v = anchor_get(b.anchors, id)->0;
    lemma_structurally_eq_refl(v);
}

/// An alias whose anchor was never defined records a warning and changes
/// nothing else: the tree under construction simply omits that entry.
pub proof fn lemma_unresolved_alias(b: BuilderView, id: usize, mark: Mark)
    requires
        anchor_get(b.anchors, id) is None,
    ensures
        ({
            let b2 = spec_step(b, EventView::Alias(id), mark);
            &&& b2.stack == b.stack
            &&& b2.root == b.root
            &&& b2.anchors == b.anchors
            &&& b2.current_label == b.current_label
            &&& b2.warnings == b.warnings.push(Warning::UnresolvedAlias)
        }),
{
}

/// The empty path finds the value itself: navigation from the root with
/// no steps returns the root.
pub proof fn lemma_nav_empty(v: ValueView)
    ensures
        nav(v, Seq::empty()) == Some(v),
{
}

/// One more step at the end of a path navigates one level further from
/// wherever the shorter path ended up.
pub proof fn lemma_nav_snoc(v: ValueView, path: Seq<PathStepView>, s: PathStepView)
    ensures
        nav(v, path.push(s)) == nav_opt(nav(v, path), Seq::empty().push(s)),
    decreases path.len(),
{
    let w = path.push(s);
    if path.len() == 0 {
        assert(w.first() == s);
        assert(w.drop_first() =~= Seq::<PathStepView>::empty());
        assert(Seq::empty().push(s).first() == s);
        assert(Seq::<PathStepView>::empty().push(s).drop_first() =~= Seq::<PathStepView>::empty());
    } else {
        assert(w.first() == path.first());
        assert(w.drop_first() =~= path.drop_first().push(s));
        match (v, path.first()) {
            (ValueView::Mapping(label, entries, m), PathStepView::Property(name)) => {
                match crate::model::map_get(entries, name) {
                    Some(child) => {
                        lemma_nav_snoc(child, path.drop_first(), s);
                    },
                    None => {},
                }
            },
            (ValueView::Sequence(items, m), PathStepView::Index(i)) => {
                if (i as int) < items.len() {
                    lemma_nav_snoc(items[i as int], path.drop_first(), s);
                }
            },
            _ => {},
        }
    }
}

/// Running a concatenation of event sequences is running one after the
/// other.
pub proof fn lemma_run_append(b: BuilderView, e1: Seq<(EventView, Mark)>, e2: Seq<(EventView, Mark)>)
    ensures
        run_events(b, e1 + e2) == run_events(run_events(b, e1), e2),
    decreases e1.len(),
{
    if e1.len() == 0 {
        assert(e1 + e2 =~= e2);
    } else {
        assert((e1 + e2).first() == e1.first());
        assert((e1 + e2).drop_first() =~= e1.drop_first() + e2);
        lemma_run_append(spec_step(b, e1.first().0, e1.first().1), e1.drop_first(), e2);
    }
}

/// Running a single event is one transition.
pub proof fn lemma_run_one(b: BuilderView, e: (EventView, Mark))
    ensures
        run_events(b, seq![e]) == spec_step(b, e.0, e.1),
{
    assert(seq![e].len() == 1);
    assert(seq![e].first() == e);
    assert(seq![e].drop_first() =~= Seq::<(EventView, Mark)>::empty());
    assert(run_events(spec_step(b, e.0, e.1), seq![e].drop_first()) == spec_step(b, e.0, e.1));
}

/// Whether a tree could have been declared literally in a document, as
/// the value sitting under the given key: every mapping records the key
/// it sits under as its own label, keeps its key names distinct, and
/// gives each key a position.
pub open spec fn declarable(v: ValueView, label: Option<LabelView>) -> bool
    decreases v,
{
    match v {
        ValueView::String(_, _) => true,
        ValueView::Sequence(items, _) => forall|k: int|
            0 <= k < items.len() ==> declarable(#[trigger] items[k], None),
        ValueView::Mapping(self_label, entries, _) => {
            &&& self_label == label
            &&& (forall|k1: int, k2: int|
                0 <= k1 < k2 < entries.len() ==> (#[trigger] entries[k1]).0.name != (
                #[trigger] entries[k2]).0.name)
            &&& (forall|k: int| 0 <= k < entries.len() ==> (#[trigger] entries[k]).0.marker is Some)
            &&& (forall|k: int|
                0 <= k < entries.len() ==> declarable(
                    (#[trigger] entries[k]).1,
                    Some(entries[k].0),
                ))
        },
    }
}

/// The events that declare a value: a scalar event for a scalar, and a
/// start event, the children's events, and an end event for a container.
/// Anchor identifiers play no part here.
pub open spec fn emit_value(v: ValueView) -> Seq<(EventView, Mark)>
    decreases v,
{
    match v {
        ValueView::String(text, m) => seq![(EventView::Scalar(text, 0), m)],
        ValueView::Sequence(items, m) => seq![(EventView::SequenceStart(0), m)] + emit_items(items)
            + seq![(EventView::SequenceEnd, m)],
        ValueView::Mapping(self_label, entries, m) => seq![(EventView::MappingStart(0), m)]
            + emit_entries(entries) + seq![(EventView::MappingEnd, m)],
    }
}

/// The events that declare a sequence's items, in order.
pub open spec fn emit_items(items: Seq<ValueView>) -> Seq<(EventView, Mark)>
    decreases items,
{
    if items.len() == 0 {
        Seq::empty()
    } else {
        emit_items(items.drop_last()) + emit_value(items.last())
    }
}

/// The events that declare a mapping's entries, in order: each key as a
/// scalar at the key's own position, then the value under it.
pub open spec fn emit_entries(entries: Seq<(LabelView, ValueView)>) -> Seq<(EventView, Mark)>
    decreases entries,
{
    if entries.len() == 0 {
        Seq::empty()
    } else {
        emit_entries(entries.drop_last()) + seq![
            (
                EventView::Scalar(entries.last().0.name, 0),
                entries.last().0.marker->0,
            ),
        ] + emit_value(entries.last().1)
    }
}

/// Declaring a value while a sequence is open appends exactly that value
/// to the open sequence, with no warning and no other change of the
/// stack.
pub proof fn lemma_emit_into_sequence(b: BuilderView, v: ValueView)
    requires
        declarable(v, None),
        top_is_sequence(b.stack),
        b.current_label is None,
    ensures
        ({
            let b2 = run_events(b, emit_value(v));
            &&& b2.stack == push_top_sequence(b.stack, v)
            &&& b2.current_label is None
            &&& b2.warnings == b.warnings
        }),
    decreases v, 1int,
{
    let b2 = run_events(b, emit_value(v));
    match v {
        ValueView::String(text, m) => {
            lemma_run_one(b, (EventView::Scalar(text, 0), m));
        },
        ValueView::Sequence(items, m) => {
            let start = seq![(EventView::SequenceStart(0), m)];
            let end = seq![(EventView::SequenceEnd, m)];
            lemma_run_append(b, start + emit_items(items), end);
            lemma_run_append(b, start, emit_items(items));
            lemma_run_one(b, (EventView::SequenceStart(0), m));
            let b_open = spec_step(b, EventView::SequenceStart(0), m);
            lemma_emit_items(b_open, items);
            let b_full = run_events(b_open, emit_items(items));
            assert(b_full.stack.last().value->Sequence_0 =~= items);
            assert(b_full.stack.last().value == ValueView::Sequence(items, m)) by {
                assert(b_full.stack.last().value is Sequence);
            }
            lemma_run_one(b_full, (EventView::SequenceEnd, m));
            assert(b_full.stack.drop_last() =~= b.stack);
            assert(b2.stack =~= push_top_sequence(b.stack, v));
        },
        ValueView::Mapping(self_label, entries, m) => {
            let start = seq![(EventView::MappingStart(0), m)];
            let end = seq![(EventView::MappingEnd, m)];
            lemma_run_append(b, start + emit_entries(entries), end);
            lemma_run_append(b, start, emit_entries(entries));
            lemma_run_one(b, (EventView::MappingStart(0), m));
            let b_open = spec_step(b, EventView::MappingStart(0), m);
            assert(b_open.stack.last().value->Mapping_1 =~= Seq::<(LabelView, ValueView)>::empty());
            lemma_emit_entries(b_open, entries);
            let b_full = run_events(b_open, emit_entries(entries));
            assert(b_full.stack.last().value->Mapping_1 =~= entries);
            assert(b_full.stack.last().value == ValueView::Mapping(None, entries, m)) by {
                assert(b_full.stack.last().value is Mapping);
            }
            lemma_run_one(b_full, (EventView::MappingEnd, m));
            assert(b_full.stack.drop_last() =~= b.stack);
            assert(b2.stack =~= push_top_sequence(b.stack, v));
        },
    }
}

/// Declaring a key and a value while a mapping is open inserts exactly
/// that entry into the open mapping, with no warning and no other change
/// of the stack.
pub proof fn lemma_emit_into_mapping(b: BuilderView, key: LabelView, v: ValueView)
    requires
        declarable(v, Some(key)),
        key.marker is Some,
        top_is_mapping(b.stack),
        b.current_label is None,
    ensures
        ({
            let evs = seq![(EventView::Scalar(key.name, 0), key.marker->0)] + emit_value(v);
            let b2 = run_events(b, evs);
            &&& b2.stack == put_top_mapping(b.stack, key, v)
            &&& b2.current_label is None
            &&& b2.warnings == b.warnings
        }),
    decreases v, 1int,
{
    let kev = seq![(EventView::Scalar(key.name, 0), key.marker->0)];
    lemma_run_append(b, kev, emit_value(v));
    lemma_run_one(b, (EventView::Scalar(key.name, 0), key.marker->0));
    let b_key = spec_step(b, EventView::Scalar(key.name, 0), key.marker->0);
    assert(b_key.current_label == Some(key));
    let b2 = run_events(b_key, emit_value(v));
    match v {
        ValueView::String(text, m) => {
            lemma_run_one(b_key, (EventView::Scalar(text, 0), m));
        },
        ValueView::Sequence(items, m) => {
            let start = seq![(EventView::SequenceStart(0), m)];
            let end = seq![(EventView::SequenceEnd, m)];
            lemma_run_append(b_key, start + emit_items(items), end);
            lemma_run_append(b_key, start, emit_items(items));
            lemma_run_one(b_key, (EventView::SequenceStart(0), m));
            let b_open = spec_step(b_key, EventView::SequenceStart(0), m);
            lemma_emit_items(b_open, items);
            let b_full = run_events(b_open, emit_items(items));
            assert(b_full.stack.last().value->Sequence_0 =~= items);
            assert(b_full.stack.last().value == ValueView::Sequence(items, m)) by {
                assert(b_full.stack.last().value is Sequence);
            }
            assert(b_full.stack.last().label == Some(key));
            lemma_run_one(b_full, (EventView::SequenceEnd, m));
            assert(b_full.stack.drop_last() =~= b.stack);
            assert(b2.stack =~= put_top_mapping(b.stack, key, v));
        },
        ValueView::Mapping(self_label, entries, m) => {
            let start = seq![(EventView::MappingStart(0), m)];
            let end = seq![(EventView::MappingEnd, m)];
            lemma_run_append(b_key, start + emit_entries(entries), end);
            lemma_run_append(b_key, start, emit_entries(entries));
            lemma_run_one(b_key, (EventView::MappingStart(0), m));
            let b_open = spec_step(b_key, EventView::MappingStart(0), m);
            assert(b_open.stack.last().value->Mapping_1 =~= Seq::<(LabelView, ValueView)>::empty());
            lemma_emit_entries(b_open, entries);
            let b_full = run_events(b_open, emit_entries(entries));
            assert(b_full.stack.last().value->Mapping_1 =~= entries);
            assert(b_full.stack.last().value == ValueView::Mapping(Some(key), entries, m)) by {
                assert(b_full.stack.last().value is Mapping);
            }
            assert(b_full.stack.last().label == Some(key));
            lemma_run_one(b_full, (EventView::MappingEnd, m));
            assert(b_full.stack.drop_last() =~= b.stack);
            assert(b2.stack =~= put_top_mapping(b.stack, key, v));
        },
    }
}

/// Declaring a run of items while a sequence is open appends exactly
/// those items, in order.
pub proof fn lemma_emit_items(b: BuilderView, items: Seq<ValueView>)
    requires
        top_is_sequence(b.stack),
        b.current_label is None,
        forall|k: int| 0 <= k < items.len() ==> declarable(#[trigger] items[k], None),
    ensures
        ({
            let b2 = run_events(b, emit_items(items));
            &&& b2.stack.len() == b.stack.len()
            &&& b2.stack.drop_last() == b.stack.drop_last()
            &&& b2.stack.last().label == b.stack.last().label
            &&& b2.stack.last().anchor == b.stack.last().anchor
            &&& b2.stack.last().value == ValueView::Sequence(
                b.stack.last().value->Sequence_0 + items,
                b.stack.last().value->Sequence_1,
            )
            &&& b2.current_label is None
            &&& b2.warnings == b.warnings
        }),
    decreases items, 0int,
{
    let b2 = run_events(b, emit_items(items));
    if items.len() == 0 {
        assert(b.stack.last().value->Sequence_0 + items =~= b.stack.last().value->Sequence_0);
        assert(b.stack.last().value == ValueView::Sequence(
            b.stack.last().value->Sequence_0 + items,
            b.stack.last().value->Sequence_1,
        ));
    } else {
        let prefix = items.drop_last();
        lemma_run_append(b, emit_items(prefix), emit_value(items.last()));
        lemma_emit_items(b, prefix);
        let b_mid = run_events(b, emit_items(prefix));
        assert(top_is_sequence(b_mid.stack));
        lemma_emit_into_sequence(b_mid, items.last());
        assert(b2.stack == push_top_sequence(b_mid.stack, items.last()));
        assert(b2.stack.last().value->Sequence_0 =~= b.stack.last().value->Sequence_0 + items);
        assert(b2.stack.drop_last() =~= b.stack.drop_last());
    }
}

/// Declaring a run of entries while a mapping is open, their key names
/// fresh and pairwise distinct, appends exactly those entries, in order.
pub proof fn lemma_emit_entries(b: BuilderView, entries: Seq<(LabelView, ValueView)>)
    requires
        top_is_mapping(b.stack),
        b.current_label is None,
        forall|k: int|
            0 <= k < entries.len() ==> !map_has(
                b.stack.last().value->Mapping_1,
                (#[trigger] entries[k]).0.name,
            ),
        forall|k1: int, k2: int|
            0 <= k1 < k2 < entries.len() ==> (#[trigger] entries[k1]).0.name != (
            #[trigger] entries[k2]).0.name,
        forall|k: int| 0 <= k < entries.len() ==> (#[trigger] entries[k]).0.marker is Some,
        forall|k: int|
            0 <= k < entries.len() ==> declarable((#[trigger] entries[k]).1, Some(entries[k].0)),
    ensures
        ({
            let b2 = run_events(b, emit_entries(entries));
            &&& b2.stack.len() == b.stack.len()
            &&& b2.stack.drop_last() == b.stack.drop_last()
            &&& b2.stack.last().label == b.stack.last().label
            &&& b2.stack.last().anchor == b.stack.last().anchor
            &&& b2.stack.last().value == ValueView::Mapping(
                b.stack.last().value->Mapping_0,
                b.stack.last().value->Mapping_1 + entries,
                b.stack.last().value->Mapping_2,
            )
            &&& b2.current_label is None
            &&& b2.warnings == b.warnings
        }),
    decreases entries, 0int,
{
    let b2 = run_events(b, emit_entries(entries));
    let e0 = b.stack.last().value->Mapping_1;
    if entries.len() == 0 {
        assert(e0 + entries =~= e0);
        assert(b.stack.last().value == ValueView::Mapping(
            b.stack.last().value->Mapping_0,
            e0 + entries,
            b.stack.last().value->Mapping_2,
        ));
    } else {
        let prefix = entries.drop_last();
        let key = entries.last().0;
        let val = entries.last().1;
        let kv = seq![(EventView::Scalar(key.name, 0), key.marker->0)] + emit_value(val);
        assert(emit_entries(entries) =~= emit_entries(prefix) + kv);
        lemma_run_append(b, emit_entries(prefix), kv);
        lemma_emit_entries(b, prefix);
        let b_mid = run_events(b, emit_entries(prefix));
        assert(top_is_mapping(b_mid.stack));
        assert(declarable(val, Some(key)));
        lemma_emit_into_mapping(b_mid, key, val);
        assert(b2.stack == put_top_mapping(b_mid.stack, key, val));
        let mid_entries = b_mid.stack.last().value->Mapping_1;
        assert(mid_entries == e0 + prefix);
        assert(!map_has(mid_entries, key.name)) by {
            if map_has(mid_entries, key.name) {
                let w = choose|i: int|
                    0 <= i < mid_entries.len() && mid_entries[i].0.name == key.name;
                if w < e0.len() {
                    assert(mid_entries[w] == e0[w]);
                    assert(map_has(e0, key.name));
                    assert(entries[entries.len() - 1].0.name == key.name);
                } else {
                    assert(mid_entries[w] == prefix[w - e0.len()]);
                    assert(entries[w - e0.len()].0.name == key.name);
                    assert(entries[entries.len() - 1].0.name == key.name);
                }
            }
        }
        assert(b2.stack.last().value->Mapping_1 =~= e0 + entries);
        assert(b2.stack.drop_last() =~= b.stack.drop_last());
    }
}

/// Rebuilding is exact for alias-free documents: feeding the events that
/// declare a container tree to a fresh builder yields exactly that tree
/// as the document root — same keys in declaration order, same sequence
/// lengths, same scalar text, same positions — with no warnings, no open
/// container, and no pending key left behind.
pub proof fn lemma_rebuild_declared_tree(v: ValueView)
    requires
        declarable(v, None),
        !(v is String),
    ensures
        ({
            let b2 = run_events(initial_builder(), emit_value(v));
            &&& b2.root == Some(v)
            &&& b2.warnings == Seq::<Warning>::empty()
            &&& b2.stack.len() == 0
            &&& b2.current_label is None
        }),
{
    let b0 = initial_builder();
    let b2 = run_events(b0, emit_value(v));
    match v {
        ValueView::String(text, m) => {},
        ValueView::Sequence(items, m) => {
            let start = seq![(EventView::SequenceStart(0), m)];
            let end = seq![(EventView::SequenceEnd, m)];
            lemma_run_append(b0, start + emit_items(items), end);
            lemma_run_append(b0, start, emit_items(items));
            lemma_run_one(b0, (EventView::SequenceStart(0), m));
            let b_open = spec_step(b0, EventView::SequenceStart(0), m);
            lemma_emit_items(b_open, items);
            let b_full = run_events(b_open, emit_items(items));
            assert(b_full.stack.last().value->Sequence_0 =~= items);
            assert(b_full.stack.last().value == ValueView::Sequence(items, m)) by {
                assert(b_full.stack.last().value is Sequence);
            }
            lemma_run_one(b_full, (EventView::SequenceEnd, m));
        },
        ValueView::Mapping(self_label, entries, m) => {
            let start = seq![(EventView::MappingStart(0), m)];
            let end = seq![(EventView::MappingEnd, m)];
            lemma_run_append(b0, start + emit_entries(entries), end);
            lemma_run_append(b0, start, emit_entries(entries));
            lemma_run_one(b0, (EventView::MappingStart(0), m));
            let b_open = spec_step(b0, EventView::MappingStart(0), m);
            assert(b_open.stack.last().value->Mapping_1 =~= Seq::<(LabelView, ValueView)>::empty());
            lemma_emit_entries(b_open, entries);
            let b_full = run_events(b_open, emit_entries(entries));
            assert(b_full.stack.last().value->Mapping_1 =~= entries);
            assert(b_full.stack.last().value == ValueView::Mapping(None, entries, m)) by {
                assert(b_full.stack.last().value is Mapping);
            }
            lemma_run_one(b_full, (EventView::MappingEnd, m));
        },
    }
}

/// Navigation yields "not found" whenever some step's kind does not match
/// the kind of the node actually reached at that point, whatever follows.
pub proof fn lemma_nav_kind_mismatch(v: ValueView, path: Seq<PathStepView>, i: int)
    requires
        0 <= i < path.len(),
        nav(v, path.take(i)) is Some,
        !step_matches(nav(v, path.take(i))->0, path[i]),
    ensures
        nav(v, path) is None,
    decreases path.len(),
{
    let u = nav(v, path.take(i))->0;
    if i == path.len() - 1 {
        assert(path.take(i).push(path[i]) =~= path);
        lemma_nav_snoc(v, path.take(i), path[i]);
        let single = Seq::<PathStepView>::empty().push(path[i]);
        assert(single.first() == path[i]);
        assert(nav(u, single) is None);
    } else {
        let p2 = path.drop_last();
        assert(p2.take(i) =~= path.take(i));
        assert(p2[i] == path[i]);
        lemma_nav_kind_mismatch(v, p2, i);
        lemma_nav_snoc(v, p2, path.last());
        assert(p2.push(path.last()) =~= path);
    }
}

} // verus!
