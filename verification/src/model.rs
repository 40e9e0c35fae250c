//! The document value model: source positions, mapping keys, and the
//! tagged-union value type for string scalars, sequences and mappings.

use vstd::prelude::*;

verus! {

/// A source-text position: line, column and byte index.
/// Positions are carried for diagnostics only.
#[derive(Clone, Copy, Debug, PartialEq, Eq, Structural)]
pub struct Mark {
    pub line: usize,
    pub col: usize,
    pub index: usize,
}

/// A mapping key: a name and the position where the key appeared.
/// Keys are identified by name alone; the position is cosmetic and is
/// never consulted when looking a key up.
#[derive(Debug)]
pub struct Label {
    pub name: String,
    pub marker: Option<Mark>,
}

/// The mathematical model of a `Label`.
pub struct LabelView {
    pub name: Seq<char>,
    pub marker: Option<Mark>,
}

impl View for Label {
    type V = LabelView;

    open spec fn view(&self) -> LabelView {
        LabelView { name: self.name@, marker: self.marker }
    }
}

impl Label {
    /// A key built from a bare name, as path navigation does.
    pub fn from(name: String) -> (r: Label)
        ensures
            r@.name == name@,
            r@.marker is None,
    {
        Label { name, marker: None }
    }

    /// An owned copy of this key.
    pub fn duplicate(&self) -> (r: Label)
        ensures
            r@ == self@,
    {
        Label { name: self.name.clone(), marker: self.marker }
    }
}

/// A parsed YAML value, each node tagged with its source position.
/// A mapping keeps its entries in first-occurrence declaration order and
/// additionally remembers the key it itself sat under, when there was one.
#[derive(Debug)]
pub enum Value {
    String(String, Mark),
    Sequence(Vec<Value>, Mark),
    Mapping(Option<Label>, Vec<(Label, Value)>, Mark),
}

/// The mathematical model of a `Value`.
pub enum ValueView {
    String(Seq<char>, Mark),
    Sequence(Seq<ValueView>, Mark),
    Mapping(Option<LabelView>, Seq<(LabelView, ValueView)>, Mark),
}

impl View for Value {
    type V = ValueView;

    open spec fn view(&self) -> ValueView
        decreases self,
    {
        match self {
            Value::String(s, m) => ValueView::String(s@, *m),
            Value::Sequence(items, m) => ValueView::Sequence(items_view(items@), *m),
            Value::Mapping(label, entries, m) => ValueView::Mapping(
                match label {
                    Some(l) => Some(l@),
                    None => None,
                },
                entries_view(entries@),
                *m,
            ),
        }
    }
}

/// The models of a sequence's items, in order.
pub open spec fn items_view(items: Seq<Value>) -> Seq<ValueView>
    decreases items,
{
    if items.len() == 0 {
        Seq::empty()
    } else {
        items_view(items.drop_last()).push(items.last()@)
    }
}

/// The models of a mapping's entries, in order.
pub open spec fn entries_view(entries: Seq<(Label, Value)>) -> Seq<(LabelView, ValueView)>
    decreases entries,
{
    if entries.len() == 0 {
        Seq::empty()
    } else {
        entries_view(entries.drop_last()).push(
            (entries.last().0@, entries.last().1@),
        )
    }
}


/// The names of a mapping's keys, in declaration order.
pub open spec fn key_names(entries: Seq<(LabelView, ValueView)>) -> Seq<Seq<char>> {
    entries.map(|i: int, e: (LabelView, ValueView)| e.0.name)
}

/// Whether some entry carries the given key name.
pub open spec fn map_has(entries: Seq<(LabelView, ValueView)>, name: Seq<char>) -> bool {
    exists|i: int| 0 <= i < entries.len() && entries[i].0.name == name
}

/// The index of the first entry carrying the given key name.
pub open spec fn map_idx(entries: Seq<(LabelView, ValueView)>, name: Seq<char>) -> int
    decreases entries,
{
    if entries.len() == 0 {
        0
    } else if entries[0].0.name == name {
        0
    } else {
        1 + map_idx(entries.drop_first(), name)
    }
}

/// The value stored under the given key name, if any.
pub open spec fn map_get(entries: Seq<(LabelView, ValueView)>, name: Seq<char>) -> Option<
    ValueView,
> {
    if map_has(entries, name) {
        Some(entries[map_idx(entries, name)].1)
    } else {
        None
    }
}

/// Insertion into an ordered mapping: when the key name is already present,
/// the stored value is replaced in place and the original key (with its
/// original position) keeps its place in the order; otherwise the new entry
/// is appended at the end.
pub open spec fn map_put(
    entries: Seq<(LabelView, ValueView)>,
    label: LabelView,
    v: ValueView,
) -> Seq<(LabelView, ValueView)> {
    if map_has(entries, label.name) {
        entries.update(map_idx(entries, label.name), (entries[map_idx(entries, label.name)].0, v))
    } else {
        entries.push((label, v))
    }
}

/// `map_idx` points at the first entry with the given name.
pub proof fn lemma_map_idx(entries: Seq<(LabelView, ValueView)>, name: Seq<char>)
    requires
        map_has(entries, name),
    ensures
        0 <= map_idx(entries, name) < entries.len(),
        entries[map_idx(entries, name)].0.name == name,
        forall|j: int| 0 <= j < map_idx(entries, name) ==> (#[trigger] entries[j]).0.name != name,
    decreases entries,
{
    if entries.len() > 0 && entries[0].0.name != name {
        let df = entries.drop_first();
        assert forall|i: int| 0 <= i < entries.len() && entries[i].0.name == name implies i >= 1 by {}
        assert(map_has(df, name)) by {
            let w = choose|i: int| 0 <= i < entries.len() && entries[i].0.name == name;
            assert(df[w - 1] == entries[w]);
        }
        lemma_map_idx(df, name);
        assert forall|j: int| 0 <= j < map_idx(entries, name) implies (#[trigger] entries[j]).0.name
            != name by {
            if j >= 1 {
                assert(df[j - 1] == entries[j]);
            }
        }
    }
}

/// `items_view` is the pointwise model of the items.
pub broadcast proof fn lemma_items_view(items: Seq<Value>)
    ensures
        (#[trigger] items_view(items)).len() == items.len(),
        forall|i: int| 0 <= i < items.len() ==> items_view(items)[i] == #[trigger] items[i]@,
    decreases items,
{
    if items.len() > 0 {
        let dl = items.drop_last();
        lemma_items_view(dl);
        let p = items_view(dl).push(items.last()@);
        assert(items_view(items) == p);
        assert(p.len() == items_view(dl).len() + 1);
        assert forall|i: int| 0 <= i < items.len() implies items_view(items)[i] == #[trigger] items[i]@ by {
            if i < items.len() - 1 {
                assert(p[i] == items_view(dl)[i]);
                assert(dl[i] == items[i]);
                assert(items_view(dl)[i] == dl[i]@);
            } else {
                assert(p[i] == items.last()@);
                assert(items[i] == items.last());
            }
        }
    }
}

/// `entries_view` is the pointwise model of the entries.
pub broadcast proof fn lemma_entries_view(entries: Seq<(Label, Value)>)
    ensures
        (#[trigger] entries_view(entries)).len() == entries.len(),
        forall|i: int| 0 <= i < entries.len() ==> entries_view(entries)[i] == (
            #[trigger] entries[i].0@,
            entries[i].1@,
        ),
    decreases entries,
{
    if entries.len() > 0 {
        let dl = entries.drop_last();
        lemma_entries_view(dl);
        let p = entries_view(dl).push((entries.last().0@, entries.last().1@));
        assert(entries_view(entries) == p);
        assert(p.len() == entries_view(dl).len() + 1);
        assert forall|i: int| 0 <= i < entries.len() implies entries_view(entries)[i] == (
            #[trigger] entries[i].0@,
            entries[i].1@,
        ) by {
            if i < entries.len() - 1 {
                assert(p[i] == entries_view(dl)[i]);
                assert(dl[i] == entries[i]);
                assert(entries_view(dl)[i] == (dl[i].0@, dl[i].1@));
            } else {
                assert(p[i] == (entries.last().0@, entries.last().1@));
                assert(entries[i] == entries.last());
            }
        }
    }
}

/// The index of the first entry whose key carries the given name, if any.
fn find_key(entries: &Vec<(Label, Value)>, name: &String) -> (r: Option<usize>)
    ensures
        match r {
            Some(i) => map_has(entries_view(entries@), name@) && i < entries@.len() && i
                == map_idx(entries_view(entries@), name@),
            None => !map_has(entries_view(entries@), name@),
        },
{
    proof {
        lemma_entries_view(entries@);
    }
    let ghost evs = entries_view(entries@);
    let mut i: usize = 0;
    while i < entries.len()
        invariant
            0 <= i <= entries.len(),
            evs == entries_view(entries@),
            evs.len() == entries.len(),
            forall|j: int| 0 <= j < i ==> (#[trigger] evs[j]).0.name != name@,
            forall|j: int|
                0 <= j < entries.len() ==> evs[j] == ((#[trigger] entries@[j]).0@, entries@[j].1@),
        decreases entries.len() - i,
    {
        if entries[i].0.name.eq(name) {
            proof {
                lemma_map_idx(evs, name@);
            }
            return Some(i);
        }
        i += 1;
    }
    None
}

/// Insert into a mapping's entry list: when the key name is already present
/// the stored value is replaced and the original key keeps its place in the
/// order; otherwise the entry is appended.
pub fn map_insert(entries: &mut Vec<(Label, Value)>, label: Label, v: Value)
    ensures
        entries_view(final(entries)@) == map_put(entries_view(old(entries)@), label@, v@),
{
    let ghost evs = entries_view(old(entries)@);
    match find_key(entries, &label.name) {
        Some(i) => {
            let kept = entries[i].0.duplicate();
            entries[i] = (kept, v);
            proof {
                lemma_entries_view(old(entries)@);
                lemma_entries_view(entries@);
                lemma_map_idx(evs, label@.name);
                let goal = map_put(evs, label@, v@);
                assert(entries_view(entries@).len() == goal.len());
                assert forall|j: int| 0 <= j < goal.len() implies entries_view(entries@)[j]
                    == goal[j] by {
                    assert(entries_view(entries@)[j] == (entries@[j].0@, entries@[j].1@));
                    assert(evs[j] == (old(entries)@[j].0@, old(entries)@[j].1@));
                    if j != i {
                        assert(entries@[j] == old(entries)@[j]);
                    }
                }
                assert(entries_view(entries@) =~= goal);
            }
        },
        None => {
            entries.push((label, v));
            proof {
                lemma_entries_view(old(entries)@);
                lemma_entries_view(entries@);
                let goal = map_put(evs, label@, v@);
                assert forall|j: int| 0 <= j < goal.len() implies entries_view(entries@)[j]
                    == goal[j] by {
                    assert(entries_view(entries@)[j] == (entries@[j].0@, entries@[j].1@));
                    if j < evs.len() {
                        assert(evs[j] == (old(entries)@[j].0@, old(entries)@[j].1@));
                        assert(entries@[j] == old(entries)@[j]);
                    }
                }
                assert(entries_view(entries@) =~= goal);
            }
        },
    }
}

/// The value stored under the given key name, if any: lookup goes by name
/// alone, never by position.
pub fn map_lookup<'a>(entries: &'a Vec<(Label, Value)>, name: &String) -> (r: Option<&'a Value>)
    ensures
        match r {
            Some(v) => map_get(entries_view(entries@), name@) == Some(v@),
            None => map_get(entries_view(entries@), name@) is None,
        },
{
    proof {
        lemma_entries_view(entries@);
    }
    match find_key(entries, name) {
        Some(i) => {
            proof {
                assert(entries_view(entries@)[i as int] == (
                    entries@[i as int].0@,
                    entries@[i as int].1@,
                ));
            }
            Some(&entries[i].1)
        },
        None => None,
    }
}

/// The best-effort end position of a value: a scalar's own position, and
/// for a non-empty sequence or mapping the end position of its last child.
pub open spec fn end_mark(v: ValueView) -> Mark
    decreases v,
{
    match v {
        ValueView::String(_, m) => m,
        ValueView::Sequence(items, m) => if items.len() == 0 {
            m
        } else {
            end_mark(items.last())
        },
        ValueView::Mapping(_, entries, m) => if entries.len() == 0 {
            m
        } else {
            end_mark(entries.last().1)
        },
    }
}

impl Value {
    /// Where this value ends in the source, best effort: itself for a
    /// scalar, the last child's end for a non-empty container.
    pub fn end_marker(&self) -> (r: Mark)
        ensures
            r == end_mark(self@),
        decreases *self,
    {
        match self {
            Value::String(_, m) => *m,
            Value::Sequence(items, m) => {
                proof {
                    lemma_items_view(items@);
                }
                if items.len() == 0 {
                    *m
                } else {
                    items[items.len() - 1].end_marker()
                }
            },
            Value::Mapping(_, entries, m) => {
                proof {
                    lemma_entries_view(entries@);
                }
                if entries.len() == 0 {
                    *m
                } else {
                    entries[entries.len() - 1].1.end_marker()
                }
            },
        }
    }

    /// An owned deep copy with the same model, positions included.
    #[verifier::loop_isolation(false)]
    pub fn duplicate(&self) -> (r: Value)
        ensures
            r@ == self@,
        decreases *self,
    {
        match self {
            Value::String(s, m) => Value::String(s.clone(), *m),
            Value::Sequence(items, m) => {
                let mut out: Vec<Value> = Vec::new();
                let mut i: usize = 0;
                while i < items.len()
                    invariant
                        0 <= i <= items.len(),
                        out@.len() == i,
                        forall|j: int| 0 <= j < i ==> (#[trigger] out@[j])@ == items@[j]@,
                    decreases items.len() - i,
                {
                    out.push(items[i].duplicate());
                    i += 1;
                }
                proof {
                    lemma_items_view(out@);
                    lemma_items_view(items@);
                    assert forall|j: int| 0 <= j < items@.len() implies items_view(out@)[j]
                        == items_view(items@)[j] by {
                        assert(items_view(out@)[j] == out@[j]@);
                        assert(items_view(items@)[j] == items@[j]@);
                    }
                    assert(items_view(out@) =~= items_view(items@));
                }
                Value::Sequence(out, *m)
            },
            Value::Mapping(label, entries, m) => {
                let label2 = match label {
                    Some(l) => Some(l.duplicate()),
                    None => None,
                };
                let mut out: Vec<(Label, Value)> = Vec::new();
                let mut i: usize = 0;
                while i < entries.len()
                    invariant
                        0 <= i <= entries.len(),
                        out@.len() == i,
                        forall|j: int|
                            0 <= j < i ==> (#[trigger] out@[j]).0@ == entries@[j].0@ && out@[j].1@
                                == entries@[j].1@,
                    decreases entries.len() - i,
                {
                    let k = entries[i].0.duplicate();
                    let w = entries[i].1.duplicate();
                    out.push((k, w));
                    i += 1;
                }
                proof {
                    lemma_entries_view(out@);
                    lemma_entries_view(entries@);
                    assert forall|j: int| 0 <= j < entries@.len() implies entries_view(out@)[j]
                        == entries_view(entries@)[j] by {
                        assert(entries_view(out@)[j] == (out@[j].0@, out@[j].1@));
                        assert(entries_view(entries@)[j] == (entries@[j].0@, entries@[j].1@));
                    }
                    assert(entries_view(out@) =~= entries_view(entries@));
                }
                Value::Mapping(label2, out, *m)
            },
        }
    }
}

} // verus!
