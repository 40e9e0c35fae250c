//! The marked-document builder: a state machine that consumes structural
//! parse events one at a time and reconstructs the document tree, resolving
//! anchors and aliases and tracking the pending mapping key.

use vstd::prelude::*;

verus! {

use crate::model::{Label, LabelView, Mark, Value, ValueView, items_view, map_insert, map_put};

/// One structural parse event, tagged where applicable with the numeric
/// anchor identifier the event source assigned to the node.
#[derive(Debug)]
pub enum YamlEvent {
    Nothing,
    StreamStart,
    StreamEnd,
    DocumentStart,
    DocumentEnd,
    Alias(usize),
    Scalar(String, usize),
    SequenceStart(usize),
    SequenceEnd,
    MappingStart(usize),
    MappingEnd,
}

/// The mathematical model of a `YamlEvent`.
#[verifier::ext_equal]
pub enum EventView {
    Nothing,
    StreamStart,
    StreamEnd,
    DocumentStart,
    DocumentEnd,
    Alias(usize),
    Scalar(Seq<char>, usize),
    SequenceStart(usize),
    SequenceEnd,
    MappingStart(usize),
    MappingEnd,
}

impl View for YamlEvent {
    type V = EventView;

    open spec fn view(&self) -> EventView {
        match self {
            YamlEvent::Nothing => EventView::Nothing,
            YamlEvent::StreamStart => EventView::StreamStart,
            YamlEvent::StreamEnd => EventView::StreamEnd,
            YamlEvent::DocumentStart => EventView::DocumentStart,
            YamlEvent::DocumentEnd => EventView::DocumentEnd,
            YamlEvent::Alias(id) => EventView::Alias(*id),
            YamlEvent::Scalar(text, id) => EventView::Scalar(text@, *id),
            YamlEvent::SequenceStart(id) => EventView::SequenceStart(*id),
            YamlEvent::SequenceEnd => EventView::SequenceEnd,
            YamlEvent::MappingStart(id) => EventView::MappingStart(*id),
            YamlEvent::MappingEnd => EventView::MappingEnd,
        }
    }
}

/// A recoverable anomaly noted while building; the rest of the document
/// still parses.
#[derive(Clone, Copy, Debug, PartialEq, Eq, Structural)]
pub enum Warning {
    /// An alias referenced an anchor identifier never defined.
    UnresolvedAlias,
    /// A scalar appeared with no container to receive it.
    OrphanScalar,
    /// An alias appeared with no container to receive it.
    OrphanAlias,
}

/// An end event arrived with no open container: a defect of the event
/// source itself, which no valid document can cause.
#[derive(Clone, Copy, Debug, PartialEq, Eq, Structural)]
pub struct ImbalancedEvents;

/// One currently-open container: the key it will sit under (if any), the
/// container built so far, and its anchor identifier.
#[derive(Debug)]
pub struct Frame {
    pub label: Option<Label>,
    pub value: Value,
    pub anchor: usize,
}

/// The mathematical model of a `Frame`.
#[verifier::ext_equal]
pub struct FrameView {
    pub label: Option<LabelView>,
    pub value: ValueView,
    pub anchor: usize,
}

impl View for Frame {
    type V = FrameView;

    open spec fn view(&self) -> FrameView {
        FrameView {
            label: match &self.label {
                Some(l) => Some(l@),
                None => None,
            },
            value: self.value@,
            anchor: self.anchor,
        }
    }
}

/// The builder: the anchor table, the pending mapping key, the stack of
/// open containers, the root once set, and the warnings recorded so far.
#[derive(Debug)]
pub struct MarkedYaml {
    anchors: Vec<(usize, Value)>,
    current_label: Option<Label>,
    object_stack: Vec<Frame>,
    root: Option<Value>,
    warnings: Vec<Warning>,
}

/// The mathematical model of the builder state.
#[verifier::ext_equal]
pub struct BuilderView {
    pub anchors: Seq<(usize, ValueView)>,
    pub current_label: Option<LabelView>,
    pub stack: Seq<FrameView>,
    pub root: Option<ValueView>,
    pub warnings: Seq<Warning>,
}

/// The models of the anchor-table entries, in order.
pub open spec fn anchors_view(a: Seq<(usize, Value)>) -> Seq<(usize, ValueView)> {
    a.map(
        |i: int, p: (usize, Value)|
            {
                let (id, v) = p;
                (id, v@)
            },
    )
}

/// The models of the stack frames, bottom first.
pub open spec fn frames_view(s: Seq<Frame>) -> Seq<FrameView> {
    s.map(|i: int, f: Frame| f@)
}

/// Popping the top frame and pushing a replacement is, on the model,
/// updating the last frame: the shape every builder step leaves the
/// stack in when it touches the innermost container.
proof fn lemma_stack_pop_push(v0: Seq<Frame>, v1: Seq<Frame>)
    requires
        v0.len() > 0,
        v1.len() == v0.len(),
        forall|j: int| 0 <= j < v0.len() - 1 ==> v1[j] == v0[j],
    ensures
        forall|j: int| 0 <= j < v0.len() ==> #[trigger] frames_view(v0)[j] == v0[j]@,
        forall|j: int| 0 <= j < v1.len() ==> #[trigger] frames_view(v1)[j] == v1[j]@,
        frames_view(v1) == frames_view(v0).update(v0.len() - 1, v1.last()@),
{
    assert forall|j: int| 0 <= j < v1.len() implies frames_view(v1)[j] == frames_view(v0).update(
        v0.len() - 1,
        v1.last()@,
    )[j] by {
        assert(frames_view(v1)[j] == v1[j]@);
        assert(frames_view(v0)[j] == v0[j]@);
    }
    assert(frames_view(v1) =~= frames_view(v0).update(v0.len() - 1, v1.last()@));
}

/// Dropping the top frame commutes with taking the model.
proof fn lemma_frames_view_drop_last(v: Seq<Frame>)
    requires
        v.len() > 0,
    ensures
        forall|j: int| 0 <= j < v.len() ==> #[trigger] frames_view(v)[j] == v[j]@,
        frames_view(v.drop_last()) == frames_view(v).drop_last(),
{
    assert forall|j: int| 0 <= j < v.len() - 1 implies frames_view(v.drop_last())[j] == frames_view(
        v,
    ).drop_last()[j] by {
        assert(frames_view(v.drop_last())[j] == v.drop_last()[j]@);
        assert(v.drop_last()[j] == v[j]);
        assert(frames_view(v)[j] == v[j]@);
    }
    assert(frames_view(v.drop_last()) =~= frames_view(v).drop_last());
}

impl View for MarkedYaml {
    type V = BuilderView;

    closed spec fn view(&self) -> BuilderView {
        BuilderView {
            anchors: anchors_view(self.anchors@),
            current_label: match &self.current_label {
                Some(l) => Some(l@),
                None => None,
            },
            stack: frames_view(self.object_stack@),
            root: match &self.root {
                Some(v) => Some(v@),
                None => None,
            },
            warnings: self.warnings@,
        }
    }
}

/// The builder state before any event: everything empty.
pub open spec fn initial_builder() -> BuilderView {
    BuilderView {
        anchors: Seq::empty(),
        current_label: None,
        stack: Seq::empty(),
        root: None,
        warnings: Seq::empty(),
    }
}

/// Whether some anchor-table entry carries the given identifier.
pub open spec fn anchor_has(a: Seq<(usize, ValueView)>, id: usize) -> bool {
    exists|i: int| 0 <= i < a.len() && a[i].0 == id
}

/// The index of the first anchor-table entry with the given identifier.
pub open spec fn anchor_idx(a: Seq<(usize, ValueView)>, id: usize) -> int
    decreases a,
{
    if a.len() == 0 {
        0
    } else if a[0].0 == id {
        0
    } else {
        1 + anchor_idx(a.drop_first(), id)
    }
}

/// The value the anchor table stores under the given identifier, if any.
pub open spec fn anchor_get(a: Seq<(usize, ValueView)>, id: usize) -> Option<ValueView> {
    if anchor_has(a, id) {
        Some(a[anchor_idx(a, id)].1)
    } else {
        None
    }
}

/// Anchor registration: a later node under the same identifier replaces
/// the earlier one, as a fresh identifier is appended.
pub open spec fn anchor_put(a: Seq<(usize, ValueView)>, id: usize, v: ValueView) -> Seq<
    (usize, ValueView),
> {
    if anchor_has(a, id) {
        a.update(anchor_idx(a, id), (id, v))
    } else {
        a.push((id, v))
    }
}

/// `anchor_idx` points at the first entry with the given identifier.
pub proof fn lemma_anchor_idx(a: Seq<(usize, ValueView)>, id: usize)
    requires
        anchor_has(a, id),
    ensures
        0 <= anchor_idx(a, id) < a.len(),
        a[anchor_idx(a, id)].0 == id,
        forall|j: int| 0 <= j < anchor_idx(a, id) ==> (#[trigger] a[j]).0 != id,
    decreases a,
{
    if a.len() > 0 && a[0].0 != id {
        let df = a.drop_first();
        assert(anchor_has(df, id)) by {
            let w = choose|i: int| 0 <= i < a.len() && a[i].0 == id;
            assert(df[w - 1] == a[w]);
        }
        lemma_anchor_idx(df, id);
        assert forall|j: int| 0 <= j < anchor_idx(a, id) implies (#[trigger] a[j]).0 != id by {
            if j >= 1 {
                assert(df[j - 1] == a[j]);
            }
        }
    }
}

/// Whether the innermost open container is a mapping.
pub open spec fn top_is_mapping(stack: Seq<FrameView>) -> bool {
    stack.len() > 0 && stack.last().value is Mapping
}

/// Whether the innermost open container is a sequence.
pub open spec fn top_is_sequence(stack: Seq<FrameView>) -> bool {
    stack.len() > 0 && stack.last().value is Sequence
}

/// Insert a keyed value into the innermost open container, a mapping.
pub open spec fn put_top_mapping(stack: Seq<FrameView>, label: LabelView, v: ValueView) -> Seq<
    FrameView,
>
    recommends
        top_is_mapping(stack),
{
    let fr = stack.last();
    stack.update(
        stack.len() - 1,
        FrameView {
            value: ValueView::Mapping(
                fr.value->Mapping_0,
                map_put(fr.value->Mapping_1, label, v),
                fr.value->Mapping_2,
            ),
            ..fr
        },
    )
}

/// Append a value to the innermost open container, a sequence.
pub open spec fn push_top_sequence(stack: Seq<FrameView>, v: ValueView) -> Seq<FrameView>
    recommends
        top_is_sequence(stack),
{
    let fr = stack.last();
    stack.update(
        stack.len() - 1,
        FrameView {
            value: ValueView::Sequence(fr.value->Sequence_0.push(v), fr.value->Sequence_1),
            ..fr
        },
    )
}

/// What one scalar event does to the builder state: a pending key plus an
/// open mapping receives it as a value; an open sequence appends it; with
/// no pending key and no receiving container it becomes the pending key;
/// otherwise it is orphaned, dropped with a warning.
pub open spec fn spec_add_value(b: BuilderView, text: Seq<char>, mark: Mark, id: usize) -> BuilderView {
    let v = ValueView::String(text, mark);
    if b.current_label is Some && top_is_mapping(b.stack) {
        BuilderView {
            anchors: anchor_put(b.anchors, id, v),
            current_label: None,
            stack: put_top_mapping(b.stack, b.current_label->0, v),
            ..b
        }
    } else if b.current_label is None && top_is_sequence(b.stack) {
        BuilderView { anchors: anchor_put(b.anchors, id, v), stack: push_top_sequence(b.stack, v), ..b }
    } else if b.current_label is None {
        BuilderView {
            current_label: Some(LabelView { name: text, marker: Some(mark) }),
            ..b
        }
    } else {
        BuilderView { current_label: None, warnings: b.warnings.push(Warning::OrphanScalar), ..b }
    }
}

/// What inserting an already-resolved alias value does: like a scalar
/// value, except that nothing is registered in the anchor table and an
/// unplaceable value is dropped with a warning.
pub open spec fn spec_add_alias(b: BuilderView, v: ValueView) -> BuilderView {
    if b.current_label is Some && top_is_mapping(b.stack) {
        BuilderView { current_label: None, stack: put_top_mapping(b.stack, b.current_label->0, v), ..b }
    } else if b.current_label is None && top_is_sequence(b.stack) {
        BuilderView { stack: push_top_sequence(b.stack, v), ..b }
    } else {
        BuilderView { current_label: None, warnings: b.warnings.push(Warning::OrphanAlias), ..b }
    }
}

/// What closing the innermost container does: the finished value is
/// registered in the anchor table; then it goes into the enclosing
/// mapping under its captured key when it has one, is appended to an
/// enclosing sequence, and otherwise becomes the document root.
pub open spec fn spec_end_container(b: BuilderView) -> BuilderView
    recommends
        b.stack.len() > 0,
{
    let fr = b.stack.last();
    let popped = b.stack.drop_last();
    let a2 = anchor_put(b.anchors, fr.anchor, fr.value);
    if fr.label is Some && top_is_mapping(popped) {
        BuilderView {
            anchors: a2,
            stack: put_top_mapping(popped, fr.label->0, fr.value),
            root: None,
            ..b
        }
    } else if top_is_sequence(popped) {
        BuilderView { anchors: a2, stack: push_top_sequence(popped, fr.value), root: None, ..b }
    } else {
        BuilderView { anchors: a2, stack: popped, root: Some(fr.value), ..b }
    }
}

/// The builder's full transition function, one event at a time. An end
/// event with no open container leaves the state unchanged; the executable
/// transition reports it as a defect of the event source.
pub open spec fn spec_step(b: BuilderView, ev: EventView, mark: Mark) -> BuilderView {
    match ev {
        EventView::Scalar(text, id) => spec_add_value(b, text, mark, id),
        EventView::SequenceStart(id) => BuilderView {
            stack: b.stack.push(
                FrameView {
                    label: b.current_label,
                    value: ValueView::Sequence(Seq::empty(), mark),
                    anchor: id,
                },
            ),
            current_label: None,
            ..b
        },
        EventView::MappingStart(id) => BuilderView {
            stack: b.stack.push(
                FrameView {
                    label: b.current_label,
                    value: ValueView::Mapping(b.current_label, Seq::empty(), mark),
                    anchor: id,
                },
            ),
            current_label: None,
            ..b
        },
        EventView::SequenceEnd => if b.stack.len() == 0 {
            b
        } else {
            spec_end_container(b)
        },
        EventView::MappingEnd => if b.stack.len() == 0 {
            b
        } else {
            spec_end_container(b)
        },
        EventView::Alias(id) => match anchor_get(b.anchors, id) {
            Some(v) => spec_add_alias(b, v),
            None => BuilderView { warnings: b.warnings.push(Warning::UnresolvedAlias), ..b },
        },
        _ => b,
    }
}

/// The index of the first anchor-table entry with the given identifier.
fn find_anchor(anchors: &Vec<(usize, Value)>, id: usize) -> (r: Option<usize>)
    ensures
        match r {
            Some(i) => anchor_has(anchors_view(anchors@), id) && i < anchors@.len() && i
                == anchor_idx(anchors_view(anchors@), id),
            None => !anchor_has(anchors_view(anchors@), id),
        },
{
    let ghost av = anchors_view(anchors@);
    let mut i: usize = 0;
    while i < anchors.len()
        invariant
            0 <= i <= anchors.len(),
            av == anchors_view(anchors@),
            av.len() == anchors@.len(),
            forall|j: int| 0 <= j < anchors@.len() ==> (#[trigger] av[j]) == (
                anchors@[j].0,
                anchors@[j].1@,
            ),
            forall|j: int| 0 <= j < i ==> (#[trigger] av[j]).0 != id,
        decreases anchors.len() - i,
    {
        if anchors[i].0 == id {
            proof {
                assert(av[i as int] == (anchors@[i as int].0, anchors@[i as int].1@));
                assert(anchor_has(av, id));
                lemma_anchor_idx(av, id);
                assert(av[anchor_idx(av, id)].0 == id);
            }
            return Some(i);
        }
        i += 1;
    }
    proof {
        assert(!anchor_has(av, id)) by {
            if anchor_has(av, id) {
                let w = choose|k: int| 0 <= k < av.len() && av[k].0 == id;
                assert(av[w].0 != id);
            }
        }
    }
    None
}

/// Register a finished node in the anchor table under its identifier,
/// replacing whatever an earlier node with the same identifier left.
fn anchor_insert(anchors: &mut Vec<(usize, Value)>, id: usize, v: Value)
    ensures
        anchors_view(final(anchors)@) == anchor_put(anchors_view(old(anchors)@), id, v@),
{
    let ghost av = anchors_view(old(anchors)@);
    match find_anchor(anchors, id) {
        Some(i) => {
            anchors[i] = (id, v);
            proof {
                lemma_anchor_idx(av, id);
                assert(anchors_view(anchors@) =~~= anchor_put(av, id, v@));
            }
        },
        None => {
            anchors.push((id, v));
            proof {
                assert(anchors_view(anchors@) =~~= anchor_put(av, id, v@));
            }
        },
    }
}

impl MarkedYaml {
    /// A builder with no state yet: no anchors, no open container, no root.
    pub fn new() -> (r: MarkedYaml)
        ensures
            r@ == initial_builder(),
    {
        let r = MarkedYaml {
            anchors: Vec::new(),
            current_label: None,
            object_stack: Vec::new(),
            root: None,
            warnings: Vec::new(),
        };
        proof {
            assert(r@ =~~= initial_builder());
        }
        r
    }

    /// The completed document root, set once the outermost container closed.
    pub fn root(&self) -> (r: Option<&Value>)
        ensures
            match r {
                Some(v) => self@.root == Some(v@),
                None => self@.root is None,
            },
    {
        self.root.as_ref()
    }

    /// The warnings recorded while building.
    pub fn warnings(&self) -> (r: &Vec<Warning>)
        ensures
            r@ == self@.warnings,
    {
        &self.warnings
    }

    /// Receive one scalar: a value for the innermost container when one is
    /// ready for it, else the pending mapping key, else an orphan.
    fn add_value(&mut self, marker: Mark, v: String, id: usize)
        ensures
            final(self)@ == spec_add_value(old(self)@, v@, marker, id),
    {
        let ghost b0 = old(self)@;
        let ghost text = v@;
        if self.object_stack.len() > 0 {
            let mut fr = self.object_stack.pop().unwrap();
            match fr.value {
                Value::Mapping(sl, mut entries, m) => {
                    if self.current_label.is_some() {
                        let label = self.current_label.take().unwrap();
                        let val = Value::String(v, marker);
                        let copy = val.duplicate();
                        anchor_insert(&mut self.anchors, id, copy);
                        map_insert(&mut entries, label, val);
                        fr.value = Value::Mapping(sl, entries, m);
                        self.object_stack.push(fr);
                        proof {
                            lemma_stack_pop_push(old(self).object_stack@, self.object_stack@);
                            assert(self@ =~~= spec_add_value(b0, text, marker, id));
                        }
                    } else {
                        fr.value = Value::Mapping(sl, entries, m);
                        self.object_stack.push(fr);
                        self.current_label = Some(Label { name: v, marker: Some(marker) });
                        proof {
                            lemma_stack_pop_push(old(self).object_stack@, self.object_stack@);
                            assert(self@ =~~= spec_add_value(b0, text, marker, id));
                        }
                    }
                },
                Value::Sequence(mut items, m) => {
                    let ghost items0 = items@;
                    if self.current_label.is_none() {
                        let val = Value::String(v, marker);
                        let copy = val.duplicate();
                        anchor_insert(&mut self.anchors, id, copy);
                        items.push(val);
                        proof {
                            assert(items@.drop_last() =~= items0);
                            assert(items_view(items@) == items_view(items0).push(
                                ValueView::String(text, marker),
                            ));
                        }
                        fr.value = Value::Sequence(items, m);
                        self.object_stack.push(fr);
                        proof {
                            lemma_stack_pop_push(old(self).object_stack@, self.object_stack@);
                            assert(self@ =~~= spec_add_value(b0, text, marker, id));
                        }
                    } else {
                        self.current_label = None;
                        fr.value = Value::Sequence(items, m);
                        self.object_stack.push(fr);
                        self.warnings.push(Warning::OrphanScalar);
                        proof {
                            lemma_stack_pop_push(old(self).object_stack@, self.object_stack@);
                            assert(self@ =~~= spec_add_value(b0, text, marker, id));
                        }
                    }
                },
                Value::String(text0, m) => {
                    fr.value = Value::String(text0, m);
                    self.object_stack.push(fr);
                    if self.current_label.is_none() {
                        self.current_label = Some(Label { name: v, marker: Some(marker) });
                    } else {
                        self.current_label = None;
                        self.warnings.push(Warning::OrphanScalar);
                    }
                    proof {
                        lemma_stack_pop_push(old(self).object_stack@, self.object_stack@);
                        assert(self@ =~~= spec_add_value(b0, text, marker, id));
                    }
                },
            }
        } else {
            if self.current_label.is_none() {
                self.current_label = Some(Label { name: v, marker: Some(marker) });
            } else {
                self.current_label = None;
                self.warnings.push(Warning::OrphanScalar);
            }
            proof {
                assert(self@ =~~= spec_add_value(b0, text, marker, id));
            }
        }
    }

    /// Receive an already-resolved alias value: inserted like a scalar
    /// value, except that nothing is registered in the anchor table.
    fn add_alias_value(&mut self, v: Value)
        ensures
            final(self)@ == spec_add_alias(old(self)@, v@),
    {
        let ghost b0 = old(self)@;
        let ghost vv = v@;
        if self.object_stack.len() > 0 {
            let mut fr = self.object_stack.pop().unwrap();
            match fr.value {
                Value::Mapping(sl, mut entries, m) => {
                    if self.current_label.is_some() {
                        let label = self.current_label.take().unwrap();
                        map_insert(&mut entries, label, v);
                        fr.value = Value::Mapping(sl, entries, m);
                        self.object_stack.push(fr);
                        proof {
                            lemma_stack_pop_push(old(self).object_stack@, self.object_stack@);
                            assert(self@ =~~= spec_add_alias(b0, vv));
                        }
                    } else {
                        fr.value = Value::Mapping(sl, entries, m);
                        self.object_stack.push(fr);
                        self.warnings.push(Warning::OrphanAlias);
                        proof {
                            lemma_stack_pop_push(old(self).object_stack@, self.object_stack@);
                            assert(self@ =~~= spec_add_alias(b0, vv));
                        }
                    }
                },
                Value::Sequence(mut items, m) => {
                    let ghost items0 = items@;
                    if self.current_label.is_none() {
                        items.push(v);
                        proof {
                            assert(items@.drop_last() =~= items0);
                            assert(items_view(items@) == items_view(items0).push(vv));
                        }
                        fr.value = Value::Sequence(items, m);
                        self.object_stack.push(fr);
                        proof {
                            lemma_stack_pop_push(old(self).object_stack@, self.object_stack@);
                            assert(self@ =~~= spec_add_alias(b0, vv));
                        }
                    } else {
                        self.current_label = None;
                        fr.value = Value::Sequence(items, m);
                        self.object_stack.push(fr);
                        self.warnings.push(Warning::OrphanAlias);
                        proof {
                            lemma_stack_pop_push(old(self).object_stack@, self.object_stack@);
                            assert(self@ =~~= spec_add_alias(b0, vv));
                        }
                    }
                },
                Value::String(text0, m) => {
                    fr.value = Value::String(text0, m);
                    self.object_stack.push(fr);
                    self.current_label = None;
                    self.warnings.push(Warning::OrphanAlias);
                    proof {
                        lemma_stack_pop_push(old(self).object_stack@, self.object_stack@);
                        assert(self@ =~~= spec_add_alias(b0, vv));
                    }
                },
            }
        } else {
            self.current_label = None;
            self.warnings.push(Warning::OrphanAlias);
            proof {
                assert(self@ =~~= spec_add_alias(b0, vv));
            }
        }
    }

    /// Close the innermost open container: register it in the anchor
    /// table, then insert it into an enclosing mapping under its captured
    /// key, append it to an enclosing sequence, or make it the root.
    fn end_container(&mut self) -> (r: Result<(), ImbalancedEvents>)
        ensures
            r is Err <==> old(self)@.stack.len() == 0,
            r is Ok ==> final(self)@ == spec_end_container(old(self)@),
            r is Err ==> final(self)@ == old(self)@,
    {
        let ghost b0 = old(self)@;
        if self.object_stack.len() == 0 {
            return Err(ImbalancedEvents);
        }
        let fr = self.object_stack.pop().unwrap();
        let copy = fr.value.duplicate();
        anchor_insert(&mut self.anchors, fr.anchor, copy);
        if self.object_stack.len() > 0 {
            let mut outer = self.object_stack.pop().unwrap();
            match outer.value {
                Value::Mapping(sl, mut entries, m) => {
                    match fr.label {
                        Some(label) => {
                            map_insert(&mut entries, label, fr.value);
                            outer.value = Value::Mapping(sl, entries, m);
                            self.object_stack.push(outer);
                            self.root = None;
                            proof {
                                lemma_frames_view_drop_last(old(self).object_stack@);
                                lemma_stack_pop_push(old(self).object_stack@.drop_last(), self.object_stack@);
                                assert(self@ =~~= spec_end_container(b0));
                            }
                        },
                        None => {
                            outer.value = Value::Mapping(sl, entries, m);
                            self.object_stack.push(outer);
                            self.root = Some(fr.value);
                            proof {
                                lemma_frames_view_drop_last(old(self).object_stack@);
                                lemma_stack_pop_push(old(self).object_stack@.drop_last(), self.object_stack@);
                                assert(self@ =~~= spec_end_container(b0));
                            }
                        },
                    }
                },
                Value::Sequence(mut items, m) => {
                    let ghost items0 = items@;
                    items.push(fr.value);
                    proof {
                        assert(items@.drop_last() =~= items0);
                        assert(items_view(items@) == items_view(items0).push(
                            b0.stack.last().value,
                        ));
                    }
                    outer.value = Value::Sequence(items, m);
                    self.object_stack.push(outer);
                    self.root = None;
                    proof {
                        lemma_frames_view_drop_last(old(self).object_stack@);
                        lemma_stack_pop_push(old(self).object_stack@.drop_last(), self.object_stack@);
                        assert(self@ =~~= spec_end_container(b0));
                    }
                },
                Value::String(text0, m) => {
                    outer.value = Value::String(text0, m);
                    self.object_stack.push(outer);
                    self.root = Some(fr.value);
                    proof {
                                lemma_frames_view_drop_last(old(self).object_stack@);
                                lemma_stack_pop_push(old(self).object_stack@.drop_last(), self.object_stack@);
                                assert(self@ =~~= spec_end_container(b0));
                            }
                },
            }
        } else {
            self.root = Some(fr.value);
            proof {
                lemma_frames_view_drop_last(old(self).object_stack@);
                assert(self@.stack =~~= spec_end_container(b0).stack);
                assert(self@ =~~= spec_end_container(b0));
            }
        }
        Ok(())
    }

    /// Feed one event and its position through the state machine. Only an
    /// end event with no open container is refused: that cannot arise from
    /// any document and marks the event source itself as broken.
    pub fn on_event(&mut self, ev: YamlEvent, marker: Mark) -> (r: Result<(), ImbalancedEvents>)
        ensures
            r is Err <==> (ev@ is SequenceEnd || ev@ is MappingEnd) && old(self)@.stack.len() == 0,
            r is Ok ==> final(self)@ == spec_step(old(self)@, ev@, marker),
            r is Err ==> final(self)@ == old(self)@,
    {
        let ghost b0 = old(self)@;
        let ghost ev0 = ev@;
        match ev {
            YamlEvent::Scalar(text, id) => {
                self.add_value(marker, text, id);
                Ok(())
            },
            YamlEvent::SequenceStart(id) => {
                let label = self.current_label.take();
                self.object_stack.push(
                    Frame { label, value: Value::Sequence(Vec::new(), marker), anchor: id },
                );
                proof {
                    assert(self@ =~~= spec_step(b0, ev0, marker));
                }
                Ok(())
            },
            YamlEvent::MappingStart(id) => {
                let label = self.current_label.take();
                let self_label = match &label {
                    Some(l) => Some(l.duplicate()),
                    None => None,
                };
                self.object_stack.push(
                    Frame { label, value: Value::Mapping(self_label, Vec::new(), marker), anchor: id },
                );
                proof {
                    assert(self@ =~~= spec_step(b0, ev0, marker));
                }
                Ok(())
            },
            YamlEvent::SequenceEnd => self.end_container(),
            YamlEvent::MappingEnd => self.end_container(),
            YamlEvent::Alias(id) => {
                match find_anchor(&self.anchors, id) {
                    Some(i) => {
                        let cloned = self.anchors[i].1.duplicate();
                        self.add_alias_value(cloned);
                        proof {
                            assert(self@ =~~= spec_step(b0, ev0, marker));
                        }
                    },
                    None => {
                        self.warnings.push(Warning::UnresolvedAlias);
                        proof {
                            assert(self@ =~~= spec_step(b0, ev0, marker));
                        }
                    },
                }
                Ok(())
            },
            _ => Ok(()),
        }
    }
}

impl Default for MarkedYaml {
    /// Same as `MarkedYaml::new`: a builder with no state yet.
    fn default() -> (r: MarkedYaml)
        ensures
            r@ == initial_builder(),
    {
        MarkedYaml::new()
    }
}

} // verus!
