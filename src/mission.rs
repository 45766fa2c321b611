use vstd::prelude::*;
use crate::composition::{Composition, center_of, items_of, sum3};
use crate::error::BuildError;
use crate::offset::{entries_shifted, has_name};
use crate::tree::{
    ClassV, ConfigClass, ConfigEntry, EntryV, class_view, clone_entries, entries_view,
    entry_view, lemma_entries_view,
};

verus! {

pub open spec fn mission_key() -> Seq<char> {
    seq!['M', 'i', 's', 's', 'i', 'o', 'n']
}

pub open spec fn entities_key() -> Seq<char> {
    seq!['E', 'n', 't', 'i', 't', 'i', 'e', 's']
}

/// `items` is a possible result of `get_offseted_items` on a composition whose
/// body is `body` and whose offset is `offset`.
pub open spec fn offset_items<F: Fn(u32, u32) -> u32>(
    sum: F,
    body: ClassV,
    offset: (u32, u32, u32),
    items: Seq<(Seq<char>, EntryV)>,
) -> bool {
    &&& items_of(body) is Some
    &&& center_of(body) is Some
    &&& exists|t: (u32, u32, u32)|
        sum3(sum, center_of(body)->Some_0, offset, t) && entries_shifted(
            sum,
            t,
            items_of(body)->Some_0,
            items,
        )
}

/// The entries of `es` that are not bound to `name`, in order.
pub open spec fn without_named(es: Seq<(Seq<char>, EntryV)>, name: Seq<char>) -> Seq<(Seq<char>, EntryV)>
    decreases es.len(),
{
    if es.len() == 0 {
        es
    } else if es.last().0 == name {
        without_named(es.drop_last(), name)
    } else {
        without_named(es.drop_last(), name).push(es.last())
    }
}

/// `es` with each name kept once, bound to its last value and standing at its
/// last occurrence: an entry is kept where no later entry has its name.
pub open spec fn dedup_last(es: Seq<(Seq<char>, EntryV)>) -> Seq<(Seq<char>, EntryV)>
    decreases es.len(),
{
    if es.len() == 0 {
        es
    } else {
        let rest = dedup_last(es.subrange(1, es.len() as int));
        if exists|j: int| 1 <= j < es.len() && #[trigger] es[j].0 == es[0].0 {
            rest
        } else {
            seq![es[0]] + rest
        }
    }
}

/// No two entries of `es` share a name.
pub open spec fn names_distinct(es: Seq<(Seq<char>, EntryV)>) -> bool {
    forall|i: int, j: int| 0 <= i < j < es.len() ==> #[trigger] es[i].0 != #[trigger] es[j].0
}

/// Some entry of `es` is named `name`.
pub open spec fn names_contain(es: Seq<(Seq<char>, EntryV)>, name: Seq<char>) -> bool {
    exists|k: int| 0 <= k < es.len() && #[trigger] es[k].0 == name
}

/// The `Entities` class that holds `items`.
pub open spec fn entities_class(items: Seq<(Seq<char>, EntryV)>) -> EntryV {
    EntryV::Class(
        ClassV { parent: mission_key(), is_external: false, is_deletion: false, entries: Some(items) },
    )
}

/// The body of a `Mission` class after the merge: names are made unique, the
/// last binding winning, every `Entities` entry is dropped, and one holding
/// `items` is added at the end.
pub open spec fn with_entities(
    es: Seq<(Seq<char>, EntryV)>,
    items: Seq<(Seq<char>, EntryV)>,
) -> Seq<(Seq<char>, EntryV)> {
    without_named(dedup_last(es), entities_key()).push((entities_key(), entities_class(items)))
}

/// A top-level entry after the merge: a `Mission` class with a body gets the
/// new `Entities`; anything else is kept.
pub open spec fn merged_entry(name: Seq<char>, e: EntryV, items: Seq<(Seq<char>, EntryV)>) -> EntryV {
    if name == mission_key() && e is Class && e->Class_0.entries is Some {
        EntryV::Class(
            ClassV {
                entries: Some(with_entities(e->Class_0.entries->Some_0, items)),
                ..e->Class_0
            },
        )
    } else {
        e
    }
}

/// A mission tree after `items` were merged into it.
pub open spec fn merged_root(root: ClassV, items: Seq<(Seq<char>, EntryV)>) -> ClassV {
    match root.entries {
        Some(es) => ClassV {
            entries: Some(es.map_values(|p: (Seq<char>, EntryV)| (p.0, merged_entry(p.0, p.1, items)))),
            ..root
        },
        None => root,
    }
}

proof fn lemma_without_named_twice(es: Seq<(Seq<char>, EntryV)>, name: Seq<char>)
    ensures
        without_named(without_named(es, name), name) == without_named(es, name),
    decreases es.len(),
{
    if es.len() > 0 {
        lemma_without_named_twice(es.drop_last(), name);
        let w = without_named(es.drop_last(), name);
        if es.last().0 != name {
            assert(w.push(es.last()).drop_last() =~= w);
        }
    }
}

proof fn lemma_dedup_names(s: Seq<(Seq<char>, EntryV)>)
    ensures
        names_distinct(dedup_last(s)),
        forall|k: int|
            0 <= k < dedup_last(s).len() ==> names_contain(s, #[trigger] dedup_last(s)[k].0),
    decreases s.len(),
{
    if s.len() > 0 {
        let tail = s.subrange(1, s.len() as int);
        lemma_dedup_names(tail);
        let rest = dedup_last(tail);
        assert forall|k: int| 0 <= k < rest.len() implies names_contain(s, #[trigger] rest[k].0) by {
            let m = choose|m: int| 0 <= m < tail.len() && #[trigger] tail[m].0 == rest[k].0;
            assert(s[m + 1].0 == rest[k].0);
        }
        if !(exists|j: int| 1 <= j < s.len() && #[trigger] s[j].0 == s[0].0) {
            let d = seq![s[0]] + rest;
            assert forall|k: int| 0 <= k < rest.len() implies #[trigger] rest[k].0 != s[0].0 by {
                let m = choose|m: int| 0 <= m < tail.len() && #[trigger] tail[m].0 == rest[k].0;
                assert(s[m + 1].0 == tail[m].0);
            }
            assert forall|i: int, j: int| 0 <= i < j < d.len() implies #[trigger] d[i].0
                != #[trigger] d[j].0 by {
                if i == 0 {
                    assert(d[j] == rest[j - 1]);
                } else {
                    assert(d[i] == rest[i - 1] && d[j] == rest[j - 1]);
                }
            }
            assert forall|k: int| 0 <= k < d.len() implies names_contain(s, #[trigger] d[k].0) by {
                if k == 0 {
                    assert(s[0].0 == d[0].0);
                } else {
                    assert(d[k] == rest[k - 1]);
                }
            }
        }
    }
}

proof fn lemma_without_names(s: Seq<(Seq<char>, EntryV)>, name: Seq<char>)
    ensures
        forall|k: int|
            0 <= k < without_named(s, name).len() ==> names_contain(
                s,
                #[trigger] without_named(s, name)[k].0,
            ) && without_named(s, name)[k].0 != name,
        names_distinct(s) ==> names_distinct(without_named(s, name)),
    decreases s.len(),
{
    if s.len() > 0 {
        let p = s.drop_last();
        lemma_without_names(p, name);
        let w = without_named(p, name);
        assert forall|k: int| 0 <= k < w.len() implies names_contain(s, #[trigger] w[k].0) by {
            let m = choose|m: int| 0 <= m < p.len() && #[trigger] p[m].0 == w[k].0;
            assert(s[m].0 == w[k].0);
        }
        if s.last().0 != name {
            let x = w.push(s.last());
            assert(s[s.len() - 1].0 == x[w.len() as int].0);
            if names_distinct(s) {
                assert(names_distinct(p));
                assert forall|i: int, j: int| 0 <= i < j < x.len() implies #[trigger] x[i].0
                    != #[trigger] x[j].0 by {
                    if j == w.len() {
                        let m = choose|m: int| 0 <= m < p.len() && #[trigger] p[m].0 == w[i].0;
                        assert(s[m].0 == w[i].0);
                    } else {
                        assert(x[i] == w[i] && x[j] == w[j]);
                    }
                }
            }
        }
    }
}

proof fn lemma_dedup_distinct(s: Seq<(Seq<char>, EntryV)>)
    requires
        names_distinct(s),
    ensures
        dedup_last(s) == s,
    decreases s.len(),
{
    if s.len() > 0 {
        let tail = s.subrange(1, s.len() as int);
        assert(names_distinct(tail)) by {
            assert forall|i: int, j: int| 0 <= i < j < tail.len() implies #[trigger] tail[i].0
                != #[trigger] tail[j].0 by {
                assert(s[i + 1].0 != s[j + 1].0);
            }
        }
        lemma_dedup_distinct(tail);
        assert(!(exists|j: int| 1 <= j < s.len() && #[trigger] s[j].0 == s[0].0));
        assert(seq![s[0]] + tail =~= s);
    }
}

/// Merging twice replaces: a tree into which `a` and then `b` were merged is
/// the tree into which only `b` was merged, so its `Entities` hold `b` alone.
pub proof fn lemma_merge_replaces(
    root: ClassV,
    a: Seq<(Seq<char>, EntryV)>,
    b: Seq<(Seq<char>, EntryV)>,
)
    ensures
        merged_root(merged_root(root, a), b) == merged_root(root, b),
{
    let e = entities_key();
    assert forall|es: Seq<(Seq<char>, EntryV)>| #[trigger]
        with_entities(with_entities(es, a), b) == with_entities(es, b) by {
        let d = dedup_last(es);
        let w = without_named(d, e);
        let x = w.push((e, entities_class(a)));
        lemma_dedup_names(es);
        lemma_without_names(d, e);
        assert(names_distinct(x)) by {
            assert forall|i: int, j: int| 0 <= i < j < x.len() implies #[trigger] x[i].0
                != #[trigger] x[j].0 by {
                if j < w.len() {
                    assert(x[i] == w[i] && x[j] == w[j]);
                } else {
                    assert(x[i] == w[i]);
                }
            }
        }
        lemma_dedup_distinct(x);
        assert(x.drop_last() =~= w);
        lemma_without_named_twice(d, e);
    }
    if let Some(es) = root.entries {
        let once = es.map_values(|p: (Seq<char>, EntryV)| (p.0, merged_entry(p.0, p.1, a)));
        let twice = once.map_values(|p: (Seq<char>, EntryV)| (p.0, merged_entry(p.0, p.1, b)));
        let direct = es.map_values(|p: (Seq<char>, EntryV)| (p.0, merged_entry(p.0, p.1, b)));
        assert(twice =~= direct);
    }
}

fn has_later_name(rest: &Vec<(String, ConfigEntry)>, name: &String) -> (r: bool)
    ensures
        r == exists|k: int| 0 <= k < rest.len() && #[trigger] rest@[k].0@ == name@,
{
    let mut k: usize = 0;
    while k < rest.len()
        invariant
            k <= rest.len(),
            forall|m: int| 0 <= m < k ==> #[trigger] rest@[m].0@ != name@,
        decreases rest.len() - k,
    {
        if rest[k].0.eq(name) {
            return true;
        }
        k += 1;
    }
    false
}

fn dedup_entries(es: Vec<(String, ConfigEntry)>) -> (r: Vec<(String, ConfigEntry)>)
    ensures
        entries_view(r@) == dedup_last(entries_view(es@)),
{
    let ghost orig = entries_view(es@);
    proof {
        lemma_entries_view(es@);
        assert(orig.subrange(0, orig.len() as int) =~= orig);
    }
    let n: usize = es.len();
    let mut rest = es;
    let mut out: Vec<(String, ConfigEntry)> = Vec::new();
    let mut i: usize = 0;
    while rest.len() > 0
        invariant
            i + rest.len() == n,
            n == orig.len(),
            forall|j: int|
                0 <= j < rest.len() ==> (#[trigger] rest@[j]).0@ == orig[i + j].0 && entry_view(
                    rest@[j].1,
                ) == orig[i + j].1,
            entries_view(out@) + dedup_last(orig.subrange(i as int, n as int)) == dedup_last(orig),
        decreases rest.len(),
    {
        let ghost sub = orig.subrange(i as int, n as int);
        let ghost tail = orig.subrange(i + 1, n as int);
        assert(sub.subrange(1, sub.len() as int) =~= tail);
        let (name, entry) = rest.remove(0);
        let later = has_later_name(&rest, &name);
        proof {
            if later {
                let k = choose|k: int| 0 <= k < rest.len() && #[trigger] rest@[k].0@ == name@;
                assert(sub[k + 1].0 == sub[0].0);
            } else {
                assert forall|j: int| 1 <= j < sub.len() implies #[trigger] sub[j].0 != sub[0].0 by {
                    assert(rest@[j - 1].0@ == sub[j].0);
                }
            }
        }
        if !later {
            let ghost before = out@;
            out.push((name, entry));
            proof {
                lemma_entries_view(before);
                lemma_entries_view(out@);
                assert(entries_view(out@) =~= entries_view(before) + seq![sub[0]]);
                assert(entries_view(out@) + dedup_last(tail) =~= entries_view(before) + (seq![sub[0]]
                    + dedup_last(tail)));
            }
        }
        i += 1;
    }
    proof {
        assert(orig.subrange(n as int, n as int) =~= Seq::<(Seq<char>, EntryV)>::empty());
        assert(entries_view(out@) + Seq::<(Seq<char>, EntryV)>::empty() =~= entries_view(out@));
    }
    out
}

fn drop_named(es: Vec<(String, ConfigEntry)>, lit: &str) -> (r: Vec<(String, ConfigEntry)>)
    ensures
        entries_view(r@) == without_named(entries_view(es@), lit@),
{
    let ghost orig = entries_view(es@);
    proof {
        lemma_entries_view(es@);
    }
    let n: usize = es.len();
    let mut rest = es;
    let mut out: Vec<(String, ConfigEntry)> = Vec::new();
    let mut i: usize = 0;
    assert(orig.subrange(0, 0).len() == 0);
    while rest.len() > 0
        invariant
            i + rest.len() == n,
            n == orig.len(),
            forall|j: int|
                0 <= j < rest.len() ==> (#[trigger] rest@[j]).0@ == orig[i + j].0 && entry_view(
                    rest@[j].1,
                ) == orig[i + j].1,
            entries_view(out@) == without_named(orig.subrange(0, i as int), lit@),
        decreases rest.len(),
    {
        let (name, entry) = rest.remove(0);
        let ghost w = orig.subrange(0, i + 1);
        assert(w.drop_last() =~= orig.subrange(0, i as int));
        if !has_name(&name, lit) {
            proof {
                let ghost o = out@.push((name, entry));
                assert(o.drop_last() =~= out@);
            }
            out.push((name, entry));
        }
        i += 1;
    }
    assert(orig.subrange(0, n as int) =~= orig);
    out
}

/// The body of a `Mission` class with every `Entities` entry replaced by one
/// holding `items`, placed last.
pub fn set_entities(es: Vec<(String, ConfigEntry)>, items: Vec<(String, ConfigEntry)>) -> (r: Vec<
    (String, ConfigEntry),
>)
    ensures
        entries_view(r@) == with_entities(entries_view(es@), entries_view(items@)),
{
    proof {
        reveal_strlit("Entities");
        assert("Entities"@ =~= entities_key());
        reveal_strlit("Mission");
        assert("Mission"@ =~= mission_key());
    }
    let mut r = drop_named(dedup_entries(es), "Entities");
    let entities = ConfigEntry::ClassEntry(
        ConfigClass {
            parent: String::from_str("Mission"),
            is_external: false,
            is_deletion: false,
            entries: Some(items),
        },
    );
    let ghost before = r@;
    assert(class_view(entities->ClassEntry_0).entries == Some(entries_view(items@)));
    assert(entry_view(entities) == entities_class(entries_view(items@)));
    r.push((String::from_str("Entities"), entities));
    assert(r@.drop_last() =~= before);
    r
}

fn merge_entry(name: &String, entry: ConfigEntry, items: &Vec<(String, ConfigEntry)>) -> (r: ConfigEntry)
    ensures
        entry_view(r) == merged_entry(name@, entry_view(entry), entries_view(items@)),
{
    proof {
        reveal_strlit("Mission");
        assert("Mission"@ =~= mission_key());
    }
    if has_name(name, "Mission") {
        match entry {
            ConfigEntry::ClassEntry(c) => {
                let ConfigClass { parent, is_external, is_deletion, entries } = c;
                match entries {
                    Some(body) => {
                        let body = set_entities(body, clone_entries(items));
                        let r = ConfigEntry::ClassEntry(
                            ConfigClass { parent, is_external, is_deletion, entries: Some(body) },
                        );
                        assert(class_view(r->ClassEntry_0).entries == Some(entries_view(body@)));
                        r
                    },
                    None => ConfigEntry::ClassEntry(
                        ConfigClass { parent, is_external, is_deletion, entries: None },
                    ),
                }
            },
            other => other,
        }
    } else {
        entry
    }
}

/// Merges `items` into the tree rooted at `root`: see `merged_root`.
pub fn merge_root(root: &mut ConfigClass, items: &Vec<(String, ConfigEntry)>)
    ensures
        class_view(*final(root)) == merged_root(class_view(*old(root)), entries_view(items@)),
{
    let ghost iv = entries_view(items@);
    match root.entries.take() {
        None => {},
        Some(es) => {
            let ghost orig = entries_view(es@);
            proof {
                lemma_entries_view(es@);
            }
            let n: usize = es.len();
            let mut rest = es;
            let mut out: Vec<(String, ConfigEntry)> = Vec::new();
            while rest.len() > 0
                invariant
                    out.len() + rest.len() == n,
                    n == orig.len(),
                    iv == entries_view(items@),
                    forall|j: int|
                        0 <= j < rest.len() ==> (#[trigger] rest@[j]).0@ == orig[out.len()
                            + j].0 && entry_view(rest@[j].1) == orig[out.len() + j].1,
                    forall|j: int|
                        0 <= j < out.len() ==> (#[trigger] out@[j]).0@ == orig[j].0 && entry_view(
                            out@[j].1,
                        ) == merged_entry(orig[j].0, orig[j].1, iv),
                decreases rest.len(),
            {
                let (name, entry) = rest.remove(0);
                let merged = merge_entry(&name, entry, items);
                out.push((name, merged));
            }
            proof {
                lemma_entries_view(out@);
                assert(entries_view(out@) =~= orig.map_values(
                    |p: (Seq<char>, EntryV)| (p.0, merged_entry(p.0, p.1, iv)),
                ));
            }
            root.entries = Some(out);
        },
    }
}

/// `{prefix}_{map_name}{mission_name}`.
pub open spec fn class_name_of(prefix: Seq<char>, map_name: Seq<char>, mission_name: Seq<char>) -> Seq<char> {
    prefix + seq!['_'] + map_name + mission_name
}

/// `{class_name}.{map_name}`.
pub open spec fn qualified_name_of(
    prefix: Seq<char>,
    map_name: Seq<char>,
    mission_name: Seq<char>,
) -> Seq<char> {
    class_name_of(prefix, map_name, mission_name) + seq!['.'] + map_name
}

/// `missions/{qualified name}/mission.sqm`.
pub open spec fn file_path_of(m: Mission) -> Seq<char> {
    seq!['m', 'i', 's', 's', 'i', 'o', 'n', 's', '/'] + qualified_name_of(
        m.prefix@,
        m.map_name@,
        m.mission_name@,
    ) + seq!['/', 'm', 'i', 's', 's', 'i', 'o', 'n', '.', 's', 'q', 'm']
}

/// A mission generated for one map: the names it was made from and its tree.
pub struct Mission {
    pub map_name: String,
    pub mission_name: String,
    pub prefix: String,
    pub sqm: ConfigClass,
}

impl Mission {
    /// A mission for `map_name` whose tree is the parsed scaffold `sqm`.
    pub fn new(prefix: String, mission_name: String, map_name: String, sqm: ConfigClass) -> (r: Self)
        ensures
            r.prefix == prefix,
            r.mission_name == mission_name,
            r.map_name == map_name,
            r.sqm == sqm,
    {
        Mission { map_name, mission_name, prefix, sqm }
    }

    /// Places the composition's offset items in the tree as the `Entities`
    /// class of every top-level `Mission` class, replacing any earlier one.
    /// Fails, leaving the mission as it was, when the composition has no items
    /// or no reference point.
    pub fn merge_composition<F: Fn(u32, u32) -> u32>(
        &mut self,
        composition: &Composition,
        sum: &F,
    ) -> (r: Result<(), BuildError>)
        requires
            forall|x: u32, y: u32| sum.requires((x, y)),
        ensures
            final(self).prefix == old(self).prefix,
            final(self).mission_name == old(self).mission_name,
            final(self).map_name == old(self).map_name,
            match r {
                Ok(()) => exists|items: Seq<(Seq<char>, EntryV)>|
                    offset_items(
                        *sum,
                        class_view(composition.composition),
                        composition.offset,
                        items,
                    ) && class_view(final(self).sqm) == merged_root(class_view(old(self).sqm), items),
                Err(e) => {
                    &&& e is MissingField
                    &&& final(self).sqm == old(self).sqm
                    &&& (items_of(class_view(composition.composition)) is None || center_of(
                        class_view(composition.composition),
                    ) is None)
                },
            },
    {
        let items = composition.get_offseted_items(sum)?;
        merge_root(&mut self.sqm, &items);
        Ok(())
    }

    /// `{prefix}_{map_name}{mission_name}`.
    pub fn class_name(&self) -> (r: String)
        ensures
            r@ == class_name_of(self.prefix@, self.map_name@, self.mission_name@),
    {
        let mut s = self.prefix.clone();
        s.append("_");
        s.append(self.map_name.as_str());
        s.append(self.mission_name.as_str());
        proof {
            reveal_strlit("_");
        }
        s
    }

    /// `{class_name}.{map_name}`: the mission's directory name in the addon.
    pub fn mission_name(&self) -> (r: String)
        ensures
            r@ == qualified_name_of(self.prefix@, self.map_name@, self.mission_name@),
    {
        let mut s = self.class_name();
        s.append(".");
        s.append(self.map_name.as_str());
        proof {
            reveal_strlit(".");
        }
        s
    }

    /// `missions/{qualified name}/mission.sqm`: where the mission's file goes
    /// in the addon.
    pub fn file_path(&self) -> (r: String)
        ensures
            r@ == file_path_of(*self),
    {
        let mut s = String::from_str("missions/");
        s.append(self.mission_name().as_str());
        s.append("/mission.sqm");
        proof {
            reveal_strlit("missions/");
            reveal_strlit("/mission.sqm");
        }
        s
    }
}

/// The maps whose scaffold was generated, each with its tree, in the order of
/// `maps`.
pub open spec fn surviving(
    maps: Seq<String>,
    scaffolds: Seq<Result<ConfigClass, BuildError>>,
) -> Seq<(Seq<char>, ConfigClass)>
    decreases scaffolds.len(),
{
    if scaffolds.len() == 0 || maps.len() == 0 {
        Seq::empty()
    } else {
        let rest = surviving(maps.drop_last(), scaffolds.drop_last());
        if scaffolds.last() is Ok {
            rest.push((maps.last()@, scaffolds.last()->Ok_0))
        } else {
            rest
        }
    }
}

/// Builds one mission per map whose scaffold was generated; a map whose
/// scaffold failed is left out, and the others keep the order of `maps`.
pub fn create_missions(
    prefix: &String,
    mission_name: &String,
    maps: &Vec<String>,
    scaffolds: Vec<Result<ConfigClass, BuildError>>,
) -> (r: Vec<Mission>)
    requires
        scaffolds.len() == maps.len(),
    ensures
        r.len() == surviving(maps@, scaffolds@).len(),
        forall|k: int|
            0 <= k < r.len() ==> {
                &&& (#[trigger] r@[k]).map_name@ == surviving(maps@, scaffolds@)[k].0
                &&& r@[k].sqm == surviving(maps@, scaffolds@)[k].1
                &&& r@[k].prefix@ == prefix@
                &&& r@[k].mission_name@ == mission_name@
            },
{
    let ghost orig = scaffolds@;
    let n: usize = scaffolds.len();
    let mut rest = scaffolds;
    let mut out: Vec<Mission> = Vec::new();
    let mut i: usize = 0;
    assert(maps@.subrange(0, 0).len() == 0);
    while rest.len() > 0
        invariant
            i + rest.len() == n,
            n == orig.len(),
            n == maps.len(),
            forall|j: int| 0 <= j < rest.len() ==> #[trigger] rest@[j] == orig[i + j],
            out.len() == surviving(maps@.subrange(0, i as int), orig.subrange(0, i as int)).len(),
            forall|k: int|
                0 <= k < out.len() ==> {
                    &&& (#[trigger] out@[k]).map_name@ == surviving(
                        maps@.subrange(0, i as int),
                        orig.subrange(0, i as int),
                    )[k].0
                    &&& out@[k].sqm == surviving(
                        maps@.subrange(0, i as int),
                        orig.subrange(0, i as int),
                    )[k].1
                    &&& out@[k].prefix@ == prefix@
                    &&& out@[k].mission_name@ == mission_name@
                },
        decreases rest.len(),
    {
        let scaffold = rest.remove(0);
        let ghost ms = maps@.subrange(0, i + 1);
        let ghost ss = orig.subrange(0, i + 1);
        assert(ms.drop_last() =~= maps@.subrange(0, i as int));
        assert(ss.drop_last() =~= orig.subrange(0, i as int));
        match scaffold {
            Ok(sqm) => {
                let m = Mission::new(prefix.clone(), mission_name.clone(), maps[i].clone(), sqm);
                out.push(m);
            },
            Err(_) => {},
        }
        i += 1;
    }
    assert(maps@.subrange(0, n as int) =~= maps@);
    assert(orig.subrange(0, n as int) =~= orig);
    out
}

/// The missions whose tree was written to text, each with that text, in the
/// order of `missions`.
pub open spec fn written(
    missions: Seq<Mission>,
    texts: Seq<Result<String, BuildError>>,
) -> Seq<(Mission, String)>
    decreases texts.len(),
{
    if texts.len() == 0 || missions.len() == 0 {
        Seq::empty()
    } else {
        let rest = written(missions.drop_last(), texts.drop_last());
        if texts.last() is Ok {
            rest.push((missions.last(), texts.last()->Ok_0))
        } else {
            rest
        }
    }
}

/// Pairs each mission with the result of writing its tree to text, and keeps
/// those that were written: each as its file path in the addon, its text, and
/// the mission, in the order of `missions`.
pub fn collect_files(missions: Vec<Mission>, texts: Vec<Result<String, BuildError>>) -> (r: Vec<
    (String, String, Mission),
>)
    requires
        missions.len() == texts.len(),
    ensures
        r.len() == written(missions@, texts@).len(),
        forall|k: int|
            0 <= k < r.len() ==> {
                &&& (#[trigger] r@[k]).2 == written(missions@, texts@)[k].0
                &&& r@[k].1 == written(missions@, texts@)[k].1
                &&& r@[k].0@ == file_path_of(r@[k].2)
            },
{
    let ghost ms = missions@;
    let ghost ts = texts@;
    let n: usize = texts.len();
    let mut rest_m = missions;
    let mut rest_t = texts;
    let mut out: Vec<(String, String, Mission)> = Vec::new();
    let mut i: usize = 0;
    while rest_t.len() > 0
        invariant
            i + rest_t.len() == n,
            rest_m.len() == rest_t.len(),
            n == ts.len(),
            n == ms.len(),
            forall|j: int| 0 <= j < rest_t.len() ==> #[trigger] rest_t@[j] == ts[i + j],
            forall|j: int| 0 <= j < rest_m.len() ==> #[trigger] rest_m@[j] == ms[i + j],
            out.len() == written(ms.subrange(0, i as int), ts.subrange(0, i as int)).len(),
            forall|k: int|
                0 <= k < out.len() ==> {
                    &&& (#[trigger] out@[k]).2 == written(
                        ms.subrange(0, i as int),
                        ts.subrange(0, i as int),
                    )[k].0
                    &&& out@[k].1 == written(ms.subrange(0, i as int), ts.subrange(0, i as int))[k].1
                    &&& out@[k].0@ == file_path_of(out@[k].2)
                },
        decreases rest_t.len(),
    {
        let mission = rest_m.remove(0);
        let text = rest_t.remove(0);
        let ghost ms1 = ms.subrange(0, i + 1);
        let ghost ts1 = ts.subrange(0, i + 1);
        assert(ms1.drop_last() =~= ms.subrange(0, i as int));
        assert(ts1.drop_last() =~= ts.subrange(0, i as int));
        match text {
            Ok(sqm) => {
                let path = mission.file_path();
                out.push((path, sqm, mission));
            },
            Err(_) => {},
        }
        i += 1;
    }
    assert(ms.subrange(0, n as int) =~= ms);
    assert(ts.subrange(0, n as int) =~= ts);
    out
}

} // verus!
