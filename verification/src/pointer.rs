//! The pointer navigator: walking a built document along a structural
//! path of property and index steps, to find the node a validation error
//! speaks about.

use vstd::prelude::*;

verus! {

use crate::model::{Value, ValueView, map_get, entries_view, items_view, lemma_entries_view,
    lemma_items_view, map_lookup};
use crate::builder::MarkedYaml;

/// One step of a structural path: into a named property of a mapping, or
/// into a numbered element of a sequence.
#[derive(Debug)]
pub enum PathStep {
    Property(String),
    Index(usize),
}

/// The mathematical model of a `PathStep`.
#[verifier::ext_equal]
pub enum PathStepView {
    Property(Seq<char>),
    Index(usize),
}

impl View for PathStep {
    type V = PathStepView;

    open spec fn view(&self) -> PathStepView {
        match self {
            PathStep::Property(name) => PathStepView::Property(name@),
            PathStep::Index(i) => PathStepView::Index(*i),
        }
    }
}

/// Navigation from a value along a path: a property step is valid only
/// against a mapping and an index step only against a sequence, and any
/// kind mismatch or lookup miss yields "not found" rather than an error.
pub open spec fn nav(v: ValueView, path: Seq<PathStepView>) -> Option<ValueView>
    decreases path.len(),
{
    if path.len() == 0 {
        Some(v)
    } else {
        match (v, path.first()) {
            (ValueView::Mapping(label, entries, m), PathStepView::Property(name)) => match map_get(
                entries,
                name,
            ) {
                Some(child) => nav(child, path.drop_first()),
                None => None,
            },
            (ValueView::Sequence(items, m), PathStepView::Index(i)) => if (i as int) < items.len() {
                nav(items[i as int], path.drop_first())
            } else {
                None
            },
            _ => None,
        }
    }
}

/// Navigation lifted to an optional starting value: absent stays absent.
pub open spec fn nav_opt(v: Option<ValueView>, path: Seq<PathStepView>) -> Option<ValueView> {
    match v {
        Some(v) => nav(v, path),
        None => None,
    }
}

/// The models of the path steps, in order.
pub open spec fn path_view(path: Seq<PathStep>) -> Seq<PathStepView> {
    path.map(|i: int, s: PathStep| s@)
}

/// A JSON-pointer segment with its escapes decoded: `~1` stands for `/`
/// and `~0` for `~`; every other character stands for itself.
pub open spec fn unescaped(s: Seq<char>) -> Seq<char>
    decreases s.len(),
{
    if s.len() == 0 {
        Seq::empty()
    } else if s.len() >= 2 && s[0] == '~' && s[1] == '1' {
        seq!['/'] + unescaped(s.skip(2))
    } else if s.len() >= 2 && s[0] == '~' && s[1] == '0' {
        seq!['~'] + unescaped(s.skip(2))
    } else {
        seq![s[0]] + unescaped(s.skip(1))
    }
}

/// Whether the text is one or more decimal digits.
pub open spec fn is_digits(s: Seq<char>) -> bool {
    s.len() > 0 && forall|i: int| 0 <= i < s.len() ==> 48 <= #[trigger] (s[i] as u32) <= 57
}

/// The number the digits spell, most significant first.
pub open spec fn digits_val(s: Seq<char>) -> int
    decreases s.len(),
{
    if s.len() == 0 {
        0
    } else {
        digits_val(s.drop_last()) * 10 + (s.last() as u32 - 48)
    }
}

/// The path step a JSON-pointer segment denotes: after decoding the
/// escapes, a run of digits that fits an index is an index, anything
/// else a property name.
pub open spec fn step_of_segment(s: Seq<char>) -> PathStepView {
    let u = unescaped(s);
    if is_digits(u) && digits_val(u) <= usize::MAX {
        PathStepView::Index(digits_val(u) as usize)
    } else {
        PathStepView::Property(u)
    }
}

/// A digit string spells a number at least zero.
proof fn lemma_digits_val_nonneg(s: Seq<char>)
    requires
        forall|q: int| 0 <= q < s.len() ==> 48 <= #[trigger] (s[q] as u32) <= 57,
    ensures
        digits_val(s) >= 0,
    decreases s.len(),
{
    if s.len() > 0 {
        lemma_digits_val_nonneg(s.drop_last());
    }
}

/// A digit string spells at least what any of its prefixes spells.
proof fn lemma_digits_val_prefix(s: Seq<char>, m: int)
    requires
        0 <= m <= s.len(),
        forall|q: int| 0 <= q < s.len() ==> 48 <= #[trigger] (s[q] as u32) <= 57,
    ensures
        digits_val(s) >= digits_val(s.take(m)),
    decreases s.len() - m,
{
    if m < s.len() {
        lemma_digits_val_prefix(s, m + 1);
        assert(s.take(m + 1).drop_last() =~= s.take(m));
        assert(s.take(m + 1).last() == s[m]);
        assert forall|q: int| 0 <= q < s.take(m).len() implies 48 <= #[trigger] (s.take(m)[q]
            as u32) <= 57 by {
            assert(s.take(m)[q] == s[q]);
        }
        lemma_digits_val_nonneg(s.take(m));
        assert(digits_val(s.take(m + 1)) == digits_val(s.take(m)) * 10 + (s[m] as u32 - 48));
    } else {
        assert(s.take(m) =~= s);
    }
}

/// Decode one JSON-pointer segment into a path step.
pub fn segment_step(segment: &str) -> (r: PathStep)
    ensures
        r@ == step_of_segment(segment@),
{
    let n = segment.unicode_len();
    let mut name = String::new();
    let mut chars: Vec<char> = Vec::new();
    proof {
        assert(segment@.skip(0) =~= segment@);
    }
    let mut i: usize = 0;
    while i < n
        invariant
            0 <= i <= n,
            n == segment@.len(),
            chars@ == name@,
            name@ + unescaped(segment@.skip(i as int)) == unescaped(segment@),
        decreases n - i,
    {
        let ghost t = segment@.skip(i as int);
        let ghost pre = name@;
        proof {
            assert(t[0] == segment@[i as int]);
        }
        let c = segment.get_char(i);
        let mut step: usize = 1;
        if c == '~' && i + 1 < n {
            proof {
                assert(t[1] == segment@[i as int + 1]);
            }
            let c2 = segment.get_char(i + 1);
            if c2 == '1' {
                name.append("/");
                chars.push('/');
                step = 2;
                proof {
                    reveal_strlit("/");
                    assert(unescaped(t) == seq!['/'] + unescaped(t.skip(2)));
                }
            } else if c2 == '0' {
                name.append("~");
                chars.push('~');
                step = 2;
                proof {
                    reveal_strlit("~");
                    assert(unescaped(t) == seq!['~'] + unescaped(t.skip(2)));
                }
            } else {
                let piece = segment.substring_char(i, i + 1);
                name.append(piece);
                chars.push(c);
                proof {
                    assert(piece@ =~= seq![c]);
                    assert(unescaped(t) == seq![t[0]] + unescaped(t.skip(1)));
                }
            }
        } else {
            let piece = segment.substring_char(i, i + 1);
            name.append(piece);
            chars.push(c);
            proof {
                assert(piece@ =~= seq![c]);
                assert(unescaped(t) == seq![t[0]] + unescaped(t.skip(1)));
            }
        }
        proof {
            let s = step as int;
            assert(t.skip(s) =~= segment@.skip(i as int + s));
            assert(name@ + unescaped(segment@.skip(i as int + s)) =~= pre + unescaped(t));
        }
        i += step;
    }
    proof {
        assert(segment@.skip(n as int) =~= Seq::<char>::empty());
        assert(name@ + unescaped(segment@.skip(n as int)) =~= name@);
        assert(name@ == unescaped(segment@));
    }
    let mut is_num = chars.len() > 0;
    let mut acc: usize = 0;
    let ghost w = chars@;
    proof {
        assert(w.take(0) =~= Seq::<char>::empty());
        if chars@.len() == 0 {
            assert(!is_digits(w));
        }
    }
    let mut j: usize = 0;
    while j < chars.len()
        invariant
            0 <= j <= chars.len(),
            w == chars@,
            is_num ==> (forall|q: int| 0 <= q < j ==> 48 <= #[trigger] (w[q] as u32) <= 57) && acc
                == digits_val(w.take(j as int)),
            !is_num ==> !(is_digits(w) && digits_val(w) <= usize::MAX),
        decreases chars.len() - j,
    {
        if is_num {
            let u: u32 = chars[j] as u32;
            proof {
                assert(w.take(j as int + 1).drop_last() =~= w.take(j as int));
                assert(w.take(j as int + 1).last() == w[j as int]);
            }
            if 48 <= u && u <= 57 {
                let d = (u - 48) as usize;
                let overflowed = match acc.checked_mul(10) {
                    Some(m10) => match m10.checked_add(d) {
                        Some(a2) => {
                            acc = a2;
                            false
                        },
                        None => true,
                    },
                    None => true,
                };
                if overflowed {
                    is_num = false;
                    proof {
                        if is_digits(w) {
                            lemma_digits_val_prefix(w, j as int + 1);
                        }
                    }
                }
            } else {
                is_num = false;
                proof {
                    assert(!(48 <= (w[j as int] as u32) <= 57));
                }
            }
        }
        j += 1;
    }
    if is_num && chars.len() > 0 {
        proof {
            assert(w.take(w.len() as int) =~= w);
            assert(is_digits(w));
        }
        PathStep::Index(acc)
    } else {
        PathStep::Property(name)
    }
}

impl MarkedYaml {
    /// The node the given structural path points at, if the document has
    /// one there: starting from the root, each property step looks a key
    /// up by name and each index step selects a sequence element. An empty
    /// path returns the root itself; any mismatch returns nothing.
    pub fn get_element<'a>(&'a self, pointer: &Vec<PathStep>) -> (r: Option<&'a Value>)
        ensures
            match r {
                Some(v) => nav_opt(self@.root, path_view(pointer@)) == Some(v@),
                None => nav_opt(self@.root, path_view(pointer@)) is None,
            },
    {
        let mut current: Option<&'a Value> = self.root();
        let ghost full = path_view(pointer@);
        proof {
            assert(full.skip(0) =~= full);
        }
        let mut i: usize = 0;
        while i < pointer.len()
            invariant
                0 <= i <= pointer.len(),
                full == path_view(pointer@),
                full.len() == pointer@.len(),
                nav_opt(
                    match current {
                        Some(v) => Some(v@),
                        None => None,
                    },
                    full.skip(i as int),
                ) == nav_opt(self@.root, full),
            decreases pointer.len() - i,
        {
            let ghost rest = full.skip(i as int);
            let ghost cur_v: Option<ValueView> = match current {
                Some(v) => Some(v@),
                None => None,
            };
            proof {
                assert(rest.first() == full[i as int]);
                assert(full[i as int] == pointer@[i as int]@);
                assert(rest.drop_first() =~= full.skip(i as int + 1));
            }
            let next: Option<&'a Value> = match (current, &pointer[i]) {
                (Some(Value::Mapping(_, entries, _)), PathStep::Property(name)) => {
                    proof {
                        lemma_entries_view(entries@);
                    }
                    let r = map_lookup(entries, name);
                    proof {
                        let vv = cur_v->0;
                        assert(vv->Mapping_1 == entries_view(entries@));
                        match r {
                            Some(child) => {
                                assert(nav(vv, rest) == nav(child@, rest.drop_first()));
                            },
                            None => {
                                assert(nav(vv, rest) is None);
                            },
                        }
                    }
                    r
                },
                (Some(Value::Sequence(items, _)), PathStep::Index(idx)) => {
                    if *idx < items.len() {
                        proof {
                            lemma_items_view(items@);
                            let vv = cur_v->0;
                            assert(vv->Sequence_0 == items_view(items@));
                            assert(vv->Sequence_0[*idx as int] == items@[*idx as int]@);
                            assert(nav(vv, rest) == nav(items@[*idx as int]@, rest.drop_first()));
                        }
                        Some(&items[*idx])
                    } else {
                        proof {
                            lemma_items_view(items@);
                            let vv = cur_v->0;
                            assert(nav(vv, rest) is None);
                        }
                        None
                    }
                },
                _ => {
                    proof {
                        assert(nav_opt(cur_v, rest) is None);
                    }
                    None
                },
            };
            current = next;
            i += 1;
        }
        current
    }
}

} // verus!
