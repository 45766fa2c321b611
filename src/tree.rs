use vstd::prelude::*;

verus! {

/// One element of an array value. Floating-point values are held as their
/// IEEE-754 single-precision bit pattern.
pub enum ConfigArrayElement {
    StringElement(String),
    FloatElement(u32),
    IntElement(i32),
    ArrayElement(ConfigArray),
}

/// An array value; `is_expansion` marks the `+=` form.
pub struct ConfigArray {
    pub is_expansion: bool,
    pub elements: Vec<ConfigArrayElement>,
}

/// A class: its parent's name, its flags and, unless it is a bare
/// declaration, its named entries in order.
pub struct ConfigClass {
    pub parent: String,
    pub is_external: bool,
    pub is_deletion: bool,
    pub entries: Option<Vec<(String, ConfigEntry)>>,
}

/// The value bound to a name inside a class.
pub enum ConfigEntry {
    StringEntry(String),
    FloatEntry(u32),
    IntEntry(i32),
    ArrayEntry(ConfigArray),
    ClassEntry(ConfigClass),
}

/// Mathematical model of an array element.
pub enum ElementV {
    Str(Seq<char>),
    Float(u32),
    Int(i32),
    Array(bool, Seq<ElementV>),
}

/// Mathematical model of a class.
pub struct ClassV {
    pub parent: Seq<char>,
    pub is_external: bool,
    pub is_deletion: bool,
    pub entries: Option<Seq<(Seq<char>, EntryV)>>,
}

/// Mathematical model of an entry.
pub enum EntryV {
    Str(Seq<char>),
    Float(u32),
    Int(i32),
    Array(bool, Seq<ElementV>),
    Class(ClassV),
}

pub open spec fn elements_view(s: Seq<ConfigArrayElement>) -> Seq<ElementV>
    decreases s,
{
    if s.len() == 0 {
        Seq::empty()
    } else {
        elements_view(s.drop_last()).push(element_view(s.last()))
    }
}

pub open spec fn element_view(e: ConfigArrayElement) -> ElementV
    decreases e,
{
    match e {
        ConfigArrayElement::StringElement(s) => ElementV::Str(s@),
        ConfigArrayElement::FloatElement(f) => ElementV::Float(f),
        ConfigArrayElement::IntElement(i) => ElementV::Int(i),
        ConfigArrayElement::ArrayElement(a) => ElementV::Array(a.is_expansion, elements_view(a.elements@)),
    }
}

pub open spec fn entries_view(s: Seq<(String, ConfigEntry)>) -> Seq<(Seq<char>, EntryV)>
    decreases s,
{
    if s.len() == 0 {
        Seq::empty()
    } else {
        entries_view(s.drop_last()).push((s.last().0@, entry_view(s.last().1)))
    }
}

pub open spec fn class_view(c: ConfigClass) -> ClassV
    decreases c,
{
    ClassV {
        parent: c.parent@,
        is_external: c.is_external,
        is_deletion: c.is_deletion,
        entries: match c.entries {
            Some(es) => Some(entries_view(es@)),
            None => None,
        },
    }
}

pub open spec fn entry_view(e: ConfigEntry) -> EntryV
    decreases e,
{
    match e {
        ConfigEntry::StringEntry(s) => EntryV::Str(s@),
        ConfigEntry::FloatEntry(f) => EntryV::Float(f),
        ConfigEntry::IntEntry(i) => EntryV::Int(i),
        ConfigEntry::ArrayEntry(a) => EntryV::Array(a.is_expansion, elements_view(a.elements@)),
        ConfigEntry::ClassEntry(c) => EntryV::Class(class_view(c)),
    }
}

pub proof fn lemma_elements_view(s: Seq<ConfigArrayElement>)
    ensures
        elements_view(s).len() == s.len(),
        forall|i: int| 0 <= i < s.len() ==> #[trigger] elements_view(s)[i] == element_view(s[i]),
    decreases s.len(),
{
    if s.len() > 0 {
        lemma_elements_view(s.drop_last());
    }
}

pub proof fn lemma_entries_view(s: Seq<(String, ConfigEntry)>)
    ensures
        entries_view(s).len() == s.len(),
        forall|i: int|
            0 <= i < s.len() ==> #[trigger] entries_view(s)[i] == (s[i].0@, entry_view(s[i].1)),
    decreases s.len(),
{
    if s.len() > 0 {
        lemma_entries_view(s.drop_last());
    }
}

/// Copies an element, keeping its model.
pub fn clone_element(e: &ConfigArrayElement) -> (r: ConfigArrayElement)
    ensures
        element_view(r) == element_view(*e),
    decreases *e,
{
    match e {
        ConfigArrayElement::StringElement(s) => ConfigArrayElement::StringElement(s.clone()),
        ConfigArrayElement::FloatElement(f) => ConfigArrayElement::FloatElement(*f),
        ConfigArrayElement::IntElement(i) => ConfigArrayElement::IntElement(*i),
        ConfigArrayElement::ArrayElement(a) => {
            let elements = clone_elements(&a.elements);
            ConfigArrayElement::ArrayElement(ConfigArray { is_expansion: a.is_expansion, elements })
        },
    }
}

/// Copies a sequence of elements, keeping its model.
pub fn clone_elements(v: &Vec<ConfigArrayElement>) -> (r: Vec<ConfigArrayElement>)
    ensures
        elements_view(r@) == elements_view(v@),
    decreases v@,
{
    let mut r: Vec<ConfigArrayElement> = Vec::new();
    let mut i: usize = 0;
    while i < v.len()
        invariant
            i <= v.len(),
            r.len() == i,
            forall|j: int| 0 <= j < i ==> element_view(#[trigger] r@[j]) == element_view(v@[j]),
        decreases v.len() - i,
    {
        assert(decreases_to!(v@ => v@[i as int]));
        r.push(clone_element(&v[i]));
        i += 1;
    }
    proof {
        lemma_elements_view(r@);
        lemma_elements_view(v@);
        assert(elements_view(r@) =~= elements_view(v@));
    }
    r
}

/// Copies a class, keeping its model.
pub fn clone_class(c: &ConfigClass) -> (r: ConfigClass)
    ensures
        class_view(r) == class_view(*c),
    decreases *c,
{
    let entries = match &c.entries {
        Some(es) => Some(clone_entries(es)),
        None => None,
    };
    ConfigClass {
        parent: c.parent.clone(),
        is_external: c.is_external,
        is_deletion: c.is_deletion,
        entries,
    }
}

/// Copies an entry, keeping its model.
pub fn clone_entry(e: &ConfigEntry) -> (r: ConfigEntry)
    ensures
        entry_view(r) == entry_view(*e),
    decreases *e,
{
    match e {
        ConfigEntry::StringEntry(s) => ConfigEntry::StringEntry(s.clone()),
        ConfigEntry::FloatEntry(f) => ConfigEntry::FloatEntry(*f),
        ConfigEntry::IntEntry(i) => ConfigEntry::IntEntry(*i),
        ConfigEntry::ArrayEntry(a) => {
            let elements = clone_elements(&a.elements);
            ConfigEntry::ArrayEntry(ConfigArray { is_expansion: a.is_expansion, elements })
        },
        ConfigEntry::ClassEntry(c) => ConfigEntry::ClassEntry(clone_class(c)),
    }
}

/// Copies an entry list, keeping its model.
pub fn clone_entries(v: &Vec<(String, ConfigEntry)>) -> (r: Vec<(String, ConfigEntry)>)
    ensures
        entries_view(r@) == entries_view(v@),
    decreases v@,
{
    let mut r: Vec<(String, ConfigEntry)> = Vec::new();
    let mut i: usize = 0;
    while i < v.len()
        invariant
            i <= v.len(),
            r.len() == i,
            forall|j: int|
                0 <= j < i ==> (#[trigger] r@[j]).0@ == v@[j].0@ && entry_view(r@[j].1)
                    == entry_view(v@[j].1),
        decreases v.len() - i,
    {
        assert(decreases_to!(v@ => v@[i as int].1));
        let e = clone_entry(&v[i].1);
        r.push((v[i].0.clone(), e));
        i += 1;
    }
    proof {
        lemma_entries_view(r@);
        lemma_entries_view(v@);
        assert(entries_view(r@) =~= entries_view(v@));
    }
    r
}

} // verus!
