use vstd::prelude::*;
use crate::error::BuildError;
use crate::offset::{entries_shifted, has_name, offset_classes};
use crate::tree::{
    ClassV, ConfigArrayElement, ConfigClass, ConfigEntry, EntryV, class_view,
    clone_entries, entries_view, entry_view, lemma_elements_view,
    lemma_entries_view,
};

verus! {

/// The entry bound to `name` in `es`; where the name occurs more than once,
/// the last binding wins.
pub open spec fn last_named(es: Seq<(Seq<char>, EntryV)>, name: Seq<char>) -> Option<EntryV>
    decreases es.len(),
{
    if es.len() == 0 {
        None
    } else if es.last().0 == name {
        Some(es.last().1)
    } else {
        last_named(es.drop_last(), name)
    }
}

/// The top-level entry of `root` bound to `name`, if any.
pub open spec fn top_level(root: ClassV, name: Seq<char>) -> Option<EntryV> {
    match root.entries {
        Some(es) => last_named(es, name),
        None => None,
    }
}

pub open spec fn center_name() -> Seq<char> {
    seq!['c', 'e', 'n', 't', 'e', 'r']
}

pub open spec fn items_name() -> Seq<char> {
    seq!['i', 't', 'e', 'm', 's']
}

/// The reference point of a composition body: its top-level `center` array,
/// when that holds exactly three floats.
pub open spec fn center_of(root: ClassV) -> Option<(u32, u32, u32)> {
    match top_level(root, center_name()) {
        Some(EntryV::Array(_, els)) => {
            if els.len() == 3 && els[0] is Float && els[1] is Float && els[2] is Float {
                Some((els[0]->Float_0, els[1]->Float_0, els[2]->Float_0))
            } else {
                None
            }
        },
        _ => None,
    }
}

/// The placed objects of a composition body: the entries of its top-level
/// `items` class, when that class has a body.
pub open spec fn items_of(root: ClassV) -> Option<Seq<(Seq<char>, EntryV)>> {
    match top_level(root, items_name()) {
        Some(EntryV::Class(c)) => c.entries,
        _ => None,
    }
}

/// `t` is a possible component-wise sum of `a` and `b` under `sum`.
pub open spec fn sum3<F: Fn(u32, u32) -> u32>(
    sum: F,
    a: (u32, u32, u32),
    b: (u32, u32, u32),
    t: (u32, u32, u32),
) -> bool {
    &&& sum.ensures((a.0, b.0), t.0)
    &&& sum.ensures((a.1, b.1), t.1)
    &&& sum.ensures((a.2, b.2), t.2)
}

/// Looks up the top-level entry of `root` bound to `lit`, last binding first.
pub fn find_last<'a>(root: &'a ConfigClass, lit: &str) -> (r: Option<&'a ConfigEntry>)
    ensures
        match r {
            Some(e) => top_level(class_view(*root), lit@) == Some(entry_view(*e)),
            None => top_level(class_view(*root), lit@) is None,
        },
{
    match &root.entries {
        None => None,
        Some(es) => {
            let ghost v = entries_view(es@);
            proof {
                lemma_entries_view(es@);
                assert(v.subrange(0, v.len() as int) =~= v);
                assert(class_view(*root).entries == Some(v));
            }
            let mut i: usize = es.len();
            while i > 0
                invariant
                    i <= es.len(),
                    class_view(*root).entries == Some(v),
                    v == entries_view(es@),
                    v.len() == es.len(),
                    forall|k: int|
                        0 <= k < es.len() ==> #[trigger] v[k] == (es@[k].0@, entry_view(es@[k].1)),
                    last_named(v, lit@) == last_named(v.subrange(0, i as int), lit@),
                decreases i,
            {
                let ghost w = v.subrange(0, i as int);
                assert(w.drop_last() =~= v.subrange(0, i - 1));
                assert(w.last() == v[i - 1]);
                if has_name(&es[i - 1].0, lit) {
                    assert(last_named(w, lit@) == Some(v[i - 1].1));
                    return Some(&es[i - 1].1);
                }
                i -= 1;
            }
            assert(v.subrange(0, 0).len() == 0);
            None
        },
    }
}

/// A reusable fragment of placed objects: its header, its body, and the offset
/// at which it is to be placed relative to its own reference point.
pub struct Composition {
    pub header: ConfigClass,
    pub composition: ConfigClass,
    pub offset: (u32, u32, u32),
}

impl Composition {
    /// The body's top-level `center` array as a triple of floats; fails when it
    /// is absent or is not exactly three floats.
    pub fn get_center(&self) -> (r: Result<(u32, u32, u32), BuildError>)
        ensures
            match r {
                Ok(c) => center_of(class_view(self.composition)) == Some(c),
                Err(e) => center_of(class_view(self.composition)) is None && e is MissingField,
            },
    {
        proof {
            reveal_strlit("center");
            assert("center"@ =~= center_name());
        }
        if let Some(ConfigEntry::ArrayEntry(array)) = find_last(&self.composition, "center") {
            proof {
                lemma_elements_view(array.elements@);
            }
            if array.elements.len() == 3 {
                if let ConfigArrayElement::FloatElement(x) = &array.elements[0] {
                    if let ConfigArrayElement::FloatElement(y) = &array.elements[1] {
                        if let ConfigArrayElement::FloatElement(z) = &array.elements[2] {
                            return Ok((*x, *y, *z));
                        }
                    }
                }
            }
        }
        Err(BuildError::MissingField(String::from_str("Failed to get center[]")))
    }

    /// The point at which the composition is placed: its reference point plus
    /// its configured offset, component by component, added by `sum`.
    pub fn get_offset<F: Fn(u32, u32) -> u32>(&self, sum: &F) -> (r: Result<(u32, u32, u32), BuildError>)
        requires
            forall|x: u32, y: u32| sum.requires((x, y)),
        ensures
            match r {
                Ok(t) => center_of(class_view(self.composition)) is Some && sum3(
                    *sum,
                    center_of(class_view(self.composition))->Some_0,
                    self.offset,
                    t,
                ),
                Err(e) => center_of(class_view(self.composition)) is None && e is MissingField,
            },
    {
        let (x1, y1, z1) = self.get_center()?;
        let (x2, y2, z2) = self.offset;
        Ok((sum(x1, x2), sum(y1, y2), sum(z1, z2)))
    }

    /// The body's placed objects, with every spatial reference moved to the
    /// composition's placement point. Fails when the body has no `items` class
    /// with a body, or no usable reference point.
    pub fn get_offseted_items<F: Fn(u32, u32) -> u32>(&self, sum: &F) -> (r: Result<
        Vec<(String, ConfigEntry)>,
        BuildError,
    >)
        requires
            forall|x: u32, y: u32| sum.requires((x, y)),
        ensures
            match r {
                Ok(items) => {
                    &&& items_of(class_view(self.composition)) is Some
                    &&& center_of(class_view(self.composition)) is Some
                    &&& exists|t: (u32, u32, u32)|
                        sum3(*sum, center_of(class_view(self.composition))->Some_0, self.offset, t)
                            && entries_shifted(
                            *sum,
                            t,
                            items_of(class_view(self.composition))->Some_0,
                            entries_view(items@),
                        )
                },
                Err(e) => {
                    &&& e is MissingField
                    &&& (items_of(class_view(self.composition)) is None || center_of(
                        class_view(self.composition),
                    ) is None)
                },
            },
    {
        proof {
            reveal_strlit("items");
            assert("items"@ =~= items_name());
        }
        if let Some(ConfigEntry::ClassEntry(items)) = find_last(&self.composition, "items") {
            if let Some(entries) = &items.entries {
                let entries = clone_entries(entries);
                let t = self.get_offset(sum)?;
                return Ok(offset_classes(entries, t, sum));
            }
        }
        Err(BuildError::MissingField(String::from_str("Failed to get offseted items")))
    }
}

} // verus!
