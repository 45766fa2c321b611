use vstd::prelude::*;
use crate::tree::{
    ConfigArray, ConfigArrayElement, ConfigClass, ConfigEntry, ElementV, EntryV,
    element_view, elements_view, entries_view, entry_view, lemma_elements_view,
    lemma_entries_view,
};

verus! {

/// Name of the class that holds a placed object's spatial reference.
pub open spec fn position_info() -> Seq<char> {
    seq!['P', 'o', 's', 'i', 't', 'i', 'o', 'n', 'I', 'n', 'f', 'o']
}

/// Name of the array, inside a `PositionInfo` class, that holds the position.
pub open spec fn position() -> Seq<char> {
    seq!['p', 'o', 's', 'i', 't', 'i', 'o', 'n']
}

/// The component of `d` that applies to array index `i`.
pub open spec fn component(d: (u32, u32, u32), i: int) -> u32 {
    if i == 0 {
        d.0
    } else if i == 1 {
        d.1
    } else {
        d.2
    }
}

/// `b` is `a` with `d` added by `sum` if `a` is a float; otherwise `b` is `a`.
pub open spec fn element_shifted<F: Fn(u32, u32) -> u32>(
    sum: F,
    d: u32,
    a: ElementV,
    b: ElementV,
) -> bool {
    if a is Float {
        b is Float && sum.ensures((a->Float_0, d), b->Float_0)
    } else {
        b == a
    }
}

/// `b` is the position array `a` with the first three elements shifted by
/// the components of `d`, and the rest kept.
pub open spec fn position_shifted<F: Fn(u32, u32) -> u32>(
    sum: F,
    d: (u32, u32, u32),
    a: Seq<ElementV>,
    b: Seq<ElementV>,
) -> bool {
    &&& b.len() == a.len()
    &&& forall|i: int|
        0 <= i < a.len() ==> if i < 3 {
            element_shifted(sum, component(d, i), a[i], #[trigger] b[i])
        } else {
            b[i] == a[i]
        }
}

/// Index of the first entry of `es` at or after `i` that is named `name`,
/// or `es.len()` if there is none.
pub open spec fn first_named(es: Seq<(Seq<char>, EntryV)>, name: Seq<char>, i: nat) -> nat
    decreases es.len() - i,
{
    if i >= es.len() {
        es.len()
    } else if es[i as int].0 == name {
        i
    } else {
        first_named(es, name, i + 1)
    }
}

/// `b` is the entry list of a `PositionInfo` class `a` after shifting: the
/// first entry named `position`, if it is an array, has its elements shifted;
/// everything else is kept.
pub open spec fn position_info_shifted<F: Fn(u32, u32) -> u32>(
    sum: F,
    d: (u32, u32, u32),
    a: Seq<(Seq<char>, EntryV)>,
    b: Seq<(Seq<char>, EntryV)>,
) -> bool {
    let j = first_named(a, position(), 0) as int;
    if j < a.len() && a[j].1 is Array {
        &&& b.len() == a.len()
        &&& forall|k: int| 0 <= k < a.len() && k != j ==> #[trigger] b[k] == a[k]
        &&& b[j].0 == a[j].0
        &&& b[j].1 is Array
        &&& b[j].1->Array_0 == a[j].1->Array_0
        &&& position_shifted(sum, d, a[j].1->Array_1, b[j].1->Array_1)
    } else {
        b == a
    }
}

/// `b` is the entry `a`, bound to `name`, after shifting: a class named
/// `PositionInfo` has its position shifted, any other class has its entries
/// shifted recursively, and every other entry is kept.
pub open spec fn entry_shifted<F: Fn(u32, u32) -> u32>(
    sum: F,
    d: (u32, u32, u32),
    name: Seq<char>,
    a: EntryV,
    b: EntryV,
) -> bool
    decreases a,
{
    match a {
        EntryV::Class(c) => {
            &&& b is Class
            &&& b->Class_0.parent == c.parent
            &&& b->Class_0.is_external == c.is_external
            &&& b->Class_0.is_deletion == c.is_deletion
            &&& match c.entries {
                None => b->Class_0.entries is None,
                Some(es) => {
                    &&& b->Class_0.entries is Some
                    &&& if name == position_info() {
                        position_info_shifted(sum, d, es, b->Class_0.entries->Some_0)
                    } else {
                        entries_shifted(sum, d, es, b->Class_0.entries->Some_0)
                    }
                },
            }
        },
        _ => b == a,
    }
}

/// `b` is the entry list `a` after shifting each of its entries.
pub open spec fn entries_shifted<F: Fn(u32, u32) -> u32>(
    sum: F,
    d: (u32, u32, u32),
    a: Seq<(Seq<char>, EntryV)>,
    b: Seq<(Seq<char>, EntryV)>,
) -> bool
    decreases a,
{
    &&& b.len() == a.len()
    &&& forall|i: int|
        0 <= i < a.len() ==> (#[trigger] b[i]).0 == a[i].0 && entry_shifted(
            sum,
            d,
            a[i].0,
            a[i].1,
            b[i].1,
        )
}

/// Whether `name` is the literal `lit`.
pub fn has_name(name: &String, lit: &str) -> (r: bool)
    ensures
        r == (name@ == lit@),
{
    let l = String::from_str(lit);
    name.eq(&l)
}

/// Adds `increment` to a float element; every other element is returned as is.
pub fn add_to_element<F: Fn(u32, u32) -> u32>(
    element: ConfigArrayElement,
    increment: u32,
    sum: &F,
) -> (r: ConfigArrayElement)
    requires
        forall|x: u32, y: u32| sum.requires((x, y)),
    ensures
        element_shifted(*sum, increment, element_view(element), element_view(r)),
{
    match element {
        ConfigArrayElement::FloatElement(f) => ConfigArrayElement::FloatElement(sum(f, increment)),
        other => other,
    }
}

fn shift_position<F: Fn(u32, u32) -> u32>(
    elements: Vec<ConfigArrayElement>,
    delta: (u32, u32, u32),
    sum: &F,
) -> (r: Vec<ConfigArrayElement>)
    requires
        forall|x: u32, y: u32| sum.requires((x, y)),
    ensures
        position_shifted(*sum, delta, elements_view(elements@), elements_view(r@)),
{
    let ghost orig = elements@;
    let n: usize = elements.len();
    let mut rest = elements;
    let mut out: Vec<ConfigArrayElement> = Vec::new();
    let mut i: usize = 0;
    while rest.len() > 0
        invariant
            i == out.len(),
            i + rest.len() == n,
            n == orig.len(),
            forall|j: int| 0 <= j < rest.len() ==> #[trigger] rest@[j] == orig[i + j],
            forall|j: int|
                0 <= j < i ==> if j < 3 {
                    element_shifted(
                        *sum,
                        component(delta, j),
                        element_view(orig[j]),
                        element_view(#[trigger] out@[j]),
                    )
                } else {
                    out@[j] == orig[j]
                },
            forall|x: u32, y: u32| sum.requires((x, y)),
        decreases rest.len(),
    {
        let el = rest.remove(0);
        let el = if i == 0 {
            add_to_element(el, delta.0, sum)
        } else if i == 1 {
            add_to_element(el, delta.1, sum)
        } else if i == 2 {
            add_to_element(el, delta.2, sum)
        } else {
            el
        };
        out.push(el);
        i += 1;
    }
    proof {
        lemma_elements_view(orig);
        lemma_elements_view(out@);
    }
    out
}

fn find_named(es: &Vec<(String, ConfigEntry)>, lit: &str) -> (r: usize)
    ensures
        r == first_named(entries_view(es@), lit@, 0),
{
    proof {
        lemma_entries_view(es@);
    }
    let ghost v = entries_view(es@);
    let mut i: usize = 0;
    while i < es.len()
        invariant
            i <= es.len(),
            v == entries_view(es@),
            v.len() == es.len(),
            forall|k: int| 0 <= k < es.len() ==> #[trigger] v[k] == (es@[k].0@, entry_view(es@[k].1)),
            first_named(v, lit@, 0) == first_named(v, lit@, i as nat),
        decreases es.len() - i,
    {
        if has_name(&es[i].0, lit) {
            assert(v[i as int].0 == lit@);
            assert(first_named(v, lit@, i as nat) == i);
            return i;
        }
        i += 1;
    }
    i
}

fn offset_position_info<F: Fn(u32, u32) -> u32>(
    entries: Vec<(String, ConfigEntry)>,
    delta: (u32, u32, u32),
    sum: &F,
) -> (r: Vec<(String, ConfigEntry)>)
    requires
        forall|x: u32, y: u32| sum.requires((x, y)),
    ensures
        position_info_shifted(*sum, delta, entries_view(entries@), entries_view(r@)),
{
    let mut entries = entries;
    let ghost orig = entries@;
    proof {
        lemma_entries_view(orig);
        reveal_strlit("position");
        assert("position"@ =~= position());
    }
    let j = find_named(&entries, "position");
    if j < entries.len() {
        let (name, entry) = entries.remove(j);
        match entry {
            ConfigEntry::ArrayEntry(array) => {
                let elements = shift_position(array.elements, delta, sum);
                let shifted = ConfigEntry::ArrayEntry(
                    ConfigArray { is_expansion: array.is_expansion, elements },
                );
                entries.insert(j, (name, shifted));
                proof {
                    lemma_entries_view(entries@);
                    assert(forall|k: int|
                        0 <= k < orig.len() && k != j ==> #[trigger] entries@[k] == orig[k]);
                }
            },
            other => {
                entries.insert(j, (name, other));
                proof {
                    assert(entries@ =~= orig);
                }
            },
        }
    }
    entries
}

/// Shifts one entry bound to `name`: a `PositionInfo` class has its position
/// moved by `delta`, any other class is shifted recursively, and every other
/// entry is returned unchanged.
pub fn offset_entry<F: Fn(u32, u32) -> u32>(
    name: &String,
    entry: ConfigEntry,
    delta: (u32, u32, u32),
    sum: &F,
) -> (r: ConfigEntry)
    requires
        forall|x: u32, y: u32| sum.requires((x, y)),
    ensures
        entry_shifted(*sum, delta, name@, entry_view(entry), entry_view(r)),
    decreases entry,
{
    match entry {
        ConfigEntry::ClassEntry(class) => {
            let ConfigClass { parent, is_external, is_deletion, entries } = class;
            let entries = match entries {
                Some(es) => {
                    proof {
                        reveal_strlit("PositionInfo");
                        assert("PositionInfo"@ =~= position_info());
                    }
                    if has_name(name, "PositionInfo") {
                        Some(offset_position_info(es, delta, sum))
                    } else {
                        assert(decreases_to!(class => es@));
                        Some(offset_classes(es, delta, sum))
                    }
                },
                None => None,
            };
            ConfigEntry::ClassEntry(ConfigClass { parent, is_external, is_deletion, entries })
        },
        other => other,
    }
}

/// Shifts every spatial reference in `entries` by `delta`, at any depth, using
/// `sum` to add two floats given by their bit patterns. Names, order, parents
/// and flags are kept.
pub fn offset_classes<F: Fn(u32, u32) -> u32>(
    entries: Vec<(String, ConfigEntry)>,
    delta: (u32, u32, u32),
    sum: &F,
) -> (r: Vec<(String, ConfigEntry)>)
    requires
        forall|x: u32, y: u32| sum.requires((x, y)),
    ensures
        entries_shifted(*sum, delta, entries_view(entries@), entries_view(r@)),
    decreases entries@,
{
    let ghost orig = entries@;
    let n: usize = entries.len();
    let mut rest = entries;
    let mut out: Vec<(String, ConfigEntry)> = Vec::new();
    while rest.len() > 0
        invariant
            out.len() + rest.len() == n,
            n == orig.len(),
            orig == entries@,
            forall|j: int| 0 <= j < rest.len() ==> #[trigger] rest@[j] == orig[out.len() + j],
            forall|j: int|
                0 <= j < out.len() ==> (#[trigger] out@[j]).0@ == orig[j].0@ && entry_shifted(
                    *sum,
                    delta,
                    orig[j].0@,
                    entry_view(orig[j].1),
                    entry_view(out@[j].1),
                ),
            forall|x: u32, y: u32| sum.requires((x, y)),
        decreases rest.len(),
    {
        let (name, entry) = rest.remove(0);
        assert(decreases_to!(entries@ => entry));
        let shifted = offset_entry(&name, entry, delta, sum);
        out.push((name, shifted));
    }
    proof {
        lemma_entries_view(orig);
        lemma_entries_view(out@);
    }
    out
}

proof fn lemma_first_named_absent(es: Seq<(Seq<char>, EntryV)>, name: Seq<char>, i: nat)
    requires
        forall|k: int| 0 <= k < es.len() ==> #[trigger] es[k].0 != name,
    ensures
        first_named(es, name, i) == es.len(),
    decreases es.len() - i,
{
    if i < es.len() {
        lemma_first_named_absent(es, name, i + 1);
    }
}

/// Shifting is selective: a `PositionInfo` class without a `position` entry
/// comes out unchanged, and any other class keeps its parent and flags and
/// only has its entries shifted in turn.
pub proof fn lemma_offset_selective<F: Fn(u32, u32) -> u32>(
    sum: F,
    d: (u32, u32, u32),
    name: Seq<char>,
    a: EntryV,
    b: EntryV,
)
    requires
        entry_shifted(sum, d, name, a, b),
        a is Class,
    ensures
        name == position_info() && a->Class_0.entries is Some && (forall|k: int|
            0 <= k < a->Class_0.entries->Some_0.len()
                ==> #[trigger] a->Class_0.entries->Some_0[k].0 != position()) ==> b == a,
        name != position_info() ==> {
            &&& b is Class
            &&& b->Class_0.parent == a->Class_0.parent
            &&& b->Class_0.is_external == a->Class_0.is_external
            &&& b->Class_0.is_deletion == a->Class_0.is_deletion
            &&& a->Class_0.entries is None ==> b->Class_0.entries is None
            &&& a->Class_0.entries is Some ==> b->Class_0.entries is Some && entries_shifted(
                sum,
                d,
                a->Class_0.entries->Some_0,
                b->Class_0.entries->Some_0,
            )
        },
{
    let c = a->Class_0;
    if name == position_info() && c.entries is Some && (forall|k: int|
        0 <= k < c.entries->Some_0.len() ==> #[trigger] c.entries->Some_0[k].0 != position()) {
        let es = c.entries->Some_0;
        lemma_first_named_absent(es, position(), 0);
        assert(b->Class_0 =~= c);
    }
}

/// Whether `b` has the shape of `a`: the same names in the same order at every
/// depth, the same parents and flags on every class, and arrays of the same
/// length.
pub open spec fn same_shape_entry(a: EntryV, b: EntryV) -> bool
    decreases a,
{
    match a {
        EntryV::Class(c) => {
            &&& b is Class
            &&& b->Class_0.parent == c.parent
            &&& b->Class_0.is_external == c.is_external
            &&& b->Class_0.is_deletion == c.is_deletion
            &&& match c.entries {
                None => b->Class_0.entries is None,
                Some(es) => b->Class_0.entries is Some && same_shape(es, b->Class_0.entries->Some_0),
            }
        },
        EntryV::Array(_, els) => b is Array && b->Array_1.len() == els.len(),
        _ => true,
    }
}

/// `same_shape_entry` over entry lists of equal length.
pub open spec fn same_shape(a: Seq<(Seq<char>, EntryV)>, b: Seq<(Seq<char>, EntryV)>) -> bool
    decreases a,
{
    &&& b.len() == a.len()
    &&& forall|i: int|
        0 <= i < a.len() ==> (#[trigger] b[i]).0 == a[i].0 && same_shape_entry(a[i].1, b[i].1)
}

proof fn lemma_same_shape_refl_entry(a: EntryV)
    ensures
        same_shape_entry(a, a),
    decreases a,
{
    if let EntryV::Class(c) = a {
        if let Some(es) = c.entries {
            lemma_same_shape_refl(es);
        }
    }
}

proof fn lemma_same_shape_refl(a: Seq<(Seq<char>, EntryV)>)
    ensures
        same_shape(a, a),
    decreases a,
{
    assert forall|i: int| 0 <= i < a.len() implies same_shape_entry(a[i].1, a[i].1) by {
        lemma_same_shape_refl_entry(a[i].1);
    }
}

proof fn lemma_shape_entry<F: Fn(u32, u32) -> u32>(
    sum: F,
    d: (u32, u32, u32),
    name: Seq<char>,
    a: EntryV,
    b: EntryV,
)
    requires
        entry_shifted(sum, d, name, a, b),
    ensures
        same_shape_entry(a, b),
    decreases a,
{
    if let EntryV::Class(c) = a {
        if let Some(es) = c.entries {
            let bs = b->Class_0.entries->Some_0;
            if name == position_info() {
                let j = first_named(es, position(), 0) as int;
                if j < es.len() && es[j].1 is Array {
                    assert forall|k: int| 0 <= k < es.len() implies (#[trigger] bs[k]).0 == es[k].0
                        && same_shape_entry(es[k].1, bs[k].1) by {
                        if k != j {
                            lemma_same_shape_refl_entry(es[k].1);
                        }
                    }
                } else {
                    lemma_same_shape_refl(es);
                }
            } else {
                lemma_offset_keeps_shape(sum, d, es, bs);
            }
        }
    } else {
        lemma_same_shape_refl_entry(a);
    }
}

/// Shifting is local: it keeps every name, parent and flag, and the length and
/// order of every entry list, at any depth.
pub proof fn lemma_offset_keeps_shape<F: Fn(u32, u32) -> u32>(
    sum: F,
    d: (u32, u32, u32),
    a: Seq<(Seq<char>, EntryV)>,
    b: Seq<(Seq<char>, EntryV)>,
)
    requires
        entries_shifted(sum, d, a, b),
    ensures
        same_shape(a, b),
    decreases a,
{
    assert forall|i: int| 0 <= i < a.len() implies same_shape_entry(a[i].1, b[i].1) by {
        lemma_shape_entry(sum, d, a[i].0, a[i].1, b[i].1);
    }
}

/// `sum` undoes with `nd` what it does with `d`: adding a component of `d`
/// and then the same component of `nd` gives back the value started from.
pub open spec fn undoes<F: Fn(u32, u32) -> u32>(
    sum: F,
    d: (u32, u32, u32),
    nd: (u32, u32, u32),
) -> bool {
    forall|i: int, x: u32, y: u32, z: u32|
        0 <= i < 3 && #[trigger] sum.ensures((x, component(d, i)), y) && #[trigger] sum.ensures(
            (y, component(nd, i)),
            z,
        ) ==> z == x
}

proof fn lemma_first_named_same_names(
    a: Seq<(Seq<char>, EntryV)>,
    b: Seq<(Seq<char>, EntryV)>,
    name: Seq<char>,
    i: nat,
)
    requires
        a.len() == b.len(),
        forall|k: int| 0 <= k < a.len() ==> #[trigger] a[k].0 == b[k].0,
    ensures
        first_named(a, name, i) == first_named(b, name, i),
    decreases a.len() - i,
{
    if i < a.len() {
        lemma_first_named_same_names(a, b, name, i + 1);
    }
}

proof fn lemma_undo_entry<F: Fn(u32, u32) -> u32>(
    sum: F,
    d: (u32, u32, u32),
    nd: (u32, u32, u32),
    name: Seq<char>,
    a: EntryV,
    b: EntryV,
    c: EntryV,
)
    requires
        undoes(sum, d, nd),
        entry_shifted(sum, d, name, a, b),
        entry_shifted(sum, nd, name, b, c),
    ensures
        c == a,
    decreases a,
{
    if let EntryV::Class(ca) = a {
        let cb = b->Class_0;
        let cc = c->Class_0;
        if let Some(es) = ca.entries {
            let bs = cb.entries->Some_0;
            let cs = cc.entries->Some_0;
            if name == position_info() {
                let j = first_named(es, position(), 0) as int;
                if j < es.len() && es[j].1 is Array {
                    assert forall|k: int| 0 <= k < es.len() implies #[trigger] es[k].0 == bs[k].0 by {
                        if k != j {
                            assert(bs[k] == es[k]);
                        }
                    }
                    lemma_first_named_same_names(es, bs, position(), 0);
                    let pa = es[j].1->Array_1;
                    let pb = bs[j].1->Array_1;
                    let pc = cs[j].1->Array_1;
                    assert forall|i: int| 0 <= i < pa.len() implies #[trigger] pc[i] == pa[i] by {
                        if i < 3 {
                            assert(element_shifted(sum, component(d, i), pa[i], pb[i]));
                            assert(element_shifted(sum, component(nd, i), pb[i], pc[i]));
                            if pa[i] is Float {
                                assert(sum.ensures((pa[i]->Float_0, component(d, i)), pb[i]->Float_0));
                                assert(sum.ensures((pb[i]->Float_0, component(nd, i)), pc[i]->Float_0));
                            }
                        }
                    }
                    assert(pc =~= pa);
                    assert(cs[j].1 == es[j].1);
                    assert(cs =~= es);
                }
            } else {
                lemma_undo(sum, d, nd, es, bs, cs);
            }
        }
        assert(cc =~= ca);
    }
}

/// Shifting by `d` and then by `nd` gives back the entry list started from,
/// where `sum` undoes with `nd` what it does with `d` (that is, where no
/// rounding intervenes).
pub proof fn lemma_undo<F: Fn(u32, u32) -> u32>(
    sum: F,
    d: (u32, u32, u32),
    nd: (u32, u32, u32),
    a: Seq<(Seq<char>, EntryV)>,
    b: Seq<(Seq<char>, EntryV)>,
    c: Seq<(Seq<char>, EntryV)>,
)
    requires
        undoes(sum, d, nd),
        entries_shifted(sum, d, a, b),
        entries_shifted(sum, nd, b, c),
    ensures
        c == a,
    decreases a,
{
    assert forall|i: int| 0 <= i < a.len() implies #[trigger] c[i] == a[i] by {
        lemma_undo_entry(sum, d, nd, a[i].0, a[i].1, b[i].1, c[i].1);
    }
    assert(c =~= a);
}

} // verus!
