//! The nested-key settings store at the core's boundary: named string
//! properties under dotted keys. A store is loaded from a nested
//! configuration tree (flattened here, with dotted keys and the later of
//! two equal keys winning) and saved back as flat pairs; the collaborator
//! that persists the file nests and serializes them. The manager registers
//! stores and describes their keys as tabs, sections and properties for an
//! operator surface.

use vstd::prelude::*;

use crate::table::assoc_distinct;
use crate::table::assoc_lookup;
use crate::table::assoc_lookup_last;
use crate::table::lemma_assoc_at;
use crate::table::lemma_assoc_distinct_push;
use crate::table::lemma_assoc_distinct_update;
use crate::table::lemma_assoc_none;
use crate::table::lemma_assoc_push;
use crate::table::lemma_assoc_update;
use crate::table::string_pairs_view;
use crate::text::spec_find_char;
use crate::text::find_char;
use crate::text::str_eq;
use crate::text::substring_copy;

verus! {

broadcast use vstd::std_specs::vec::axiom_vec_index_decreases;

/// One settable value with a change mark: the mark is set by every write
/// and tells the owner that something needs to be persisted.
pub struct Property<T> {
    value: T,
    changed: bool,
}

impl<T> Property<T> {
    /// The current value.
    pub closed spec fn spec_value(&self) -> T {
        self.value
    }

    /// Whether the property was written since it was created.
    pub closed spec fn spec_changed(&self) -> bool {
        self.changed
    }

    pub fn new(value: T) -> (r: Property<T>)
        ensures
            r.spec_value() == value,
            !r.spec_changed(),
    {
        Property { value, changed: false }
    }

    /// Writes the value and sets the change mark.
    pub fn set(&mut self, value: T)
        ensures
            final(self).spec_value() == value,
            final(self).spec_changed(),
    {
        self.value = value;
        self.changed = true;
    }

    /// Reads the current value.
    pub fn get(&self) -> (r: &T)
        ensures
            *r == self.spec_value(),
    {
        &self.value
    }
}

/// One node of a configuration tree: a leaf holding text, or a section
/// holding further entries.
pub enum ConfigValue {
    Text(String),
    Section(Vec<ConfigEntry>),
}

/// One named entry of a configuration tree.
pub struct ConfigEntry {
    pub name: String,
    pub value: ConfigValue,
}

/// The dotted key a nested name denotes under `prefix`.
pub open spec fn joined_key(prefix: Seq<char>, name: Seq<char>) -> Seq<char> {
    if prefix.len() == 0 {
        name
    } else {
        prefix + "."@ + name
    }
}

/// The flat (dotted key, text) pairs the entries of a configuration tree
/// denote under `prefix`, walking entries in order from position `i`,
/// depth first.
pub open spec fn flatten_from(entries: Vec<ConfigEntry>, prefix: Seq<char>, i: int) -> Seq<
    (Seq<char>, Seq<char>),
>
    decreases entries, entries@.len() - i,
{
    if i < 0 || i >= entries@.len() {
        Seq::empty()
    } else {
        let head = match entries@[i].value {
            ConfigValue::Text(t) => seq![(joined_key(prefix, entries@[i].name@), t@)],
            ConfigValue::Section(sub) => flatten_from(
                sub,
                joined_key(prefix, entries@[i].name@),
                0,
            ),
        };
        head + flatten_from(entries, prefix, i + 1)
    }
}

/// Joins a prefix and a name into a dotted key.
fn join_key(prefix: &str, name: &str) -> (r: String)
    ensures
        r@ == joined_key(prefix@, name@),
{
    if prefix.unicode_len() == 0 {
        name.to_owned()
    } else {
        let mut out = prefix.to_owned();
        out.append(".");
        out.append(name);
        out
    }
}

/// Walks a configuration tree and appends its flat (dotted key, text)
/// pairs to `out`, in entry order, sections walked depth first.
pub fn flatten_entries(entries: &Vec<ConfigEntry>, prefix: &str, out: &mut Vec<(String, String)>)
    ensures
        string_pairs_view(final(out)@) == string_pairs_view(old(out)@) + flatten_from(
            *entries,
            prefix@,
            0,
        ),
    decreases *entries,
{
    let ghost base = string_pairs_view(old(out)@);
    let mut i: usize = 0;
    proof {
        let full = flatten_from(*entries, prefix@, 0);
        assert(full.take(0) =~= Seq::<(Seq<char>, Seq<char>)>::empty());
        assert(base + full.take(0) =~= base);
        assert(full.take(0) + full =~= full);
    }
    while i < entries.len()
        invariant
            i <= entries@.len(),
            string_pairs_view(out@) =~= base + flatten_from(*entries, prefix@, 0).take(
                flatten_from(*entries, prefix@, 0).len() - flatten_from(
                    *entries,
                    prefix@,
                    i as int,
                ).len(),
            ),
            flatten_from(*entries, prefix@, 0).len() >= flatten_from(
                *entries,
                prefix@,
                i as int,
            ).len(),
            flatten_from(*entries, prefix@, 0) == flatten_from(*entries, prefix@, 0).take(
                flatten_from(*entries, prefix@, 0).len() - flatten_from(
                    *entries,
                    prefix@,
                    i as int,
                ).len(),
            ) + flatten_from(*entries, prefix@, i as int),
        decreases entries@.len() - i,
    {
        let ghost pre_out = string_pairs_view(out@);
        let ghost rest = flatten_from(*entries, prefix@, i as int);
        let ghost rest1 = flatten_from(*entries, prefix@, i as int + 1);
        let key = join_key(prefix, entries[i].name.as_str());
        match &entries[i].value {
            ConfigValue::Text(t) => {
                out.push((key, t.clone()));
                proof {
                    assert(rest =~= seq![(joined_key(prefix@, entries@[i as int].name@), t@)]
                        + rest1);
                    assert(string_pairs_view(out@) =~= pre_out.push(
                        (joined_key(prefix@, entries@[i as int].name@), t@),
                    ));
                }
            },
            ConfigValue::Section(sub) => {
                flatten_entries(sub, key.as_str(), out);
                proof {
                    assert(rest =~= flatten_from(
                        *sub,
                        joined_key(prefix@, entries@[i as int].name@),
                        0,
                    ) + rest1);
                }
            },
        }
        i = i + 1;
        proof {
            let full = flatten_from(*entries, prefix@, 0);
            assert(rest.len() >= rest1.len() && full.len() >= rest.len()) by {
                lemma_flatten_suffix_len(*entries, prefix@, i as int - 1);
                lemma_flatten_prefix_len(*entries, prefix@, i as int - 1);
            }
            assert(string_pairs_view(out@) =~= base + full.take(full.len() - rest1.len()));
            assert(full =~= full.take(full.len() - rest1.len()) + rest1);
        }
    }
    proof {
        assert(flatten_from(*entries, prefix@, entries@.len() as int) =~= Seq::<
            (Seq<char>, Seq<char>),
        >::empty());
        let full = flatten_from(*entries, prefix@, 0);
        assert(full.take(full.len() as int) =~= full);
    }
}

proof fn lemma_flatten_suffix_len(entries: Vec<ConfigEntry>, prefix: Seq<char>, i: int)
    requires
        0 <= i,
    ensures
        flatten_from(entries, prefix, i).len() >= flatten_from(entries, prefix, i + 1).len(),
{
}

proof fn lemma_flatten_prefix_len(entries: Vec<ConfigEntry>, prefix: Seq<char>, i: int)
    requires
        0 <= i,
    ensures
        flatten_from(entries, prefix, 0).len() >= flatten_from(entries, prefix, i).len(),
    decreases i,
{
    if i > 0 {
        lemma_flatten_prefix_len(entries, prefix, i - 1);
        lemma_flatten_suffix_len(entries, prefix, i - 1);
    }
}

/// The failure of asking the manager for what it does not hold.
#[derive(Debug, PartialEq, Eq, Structural, Clone, Copy)]
pub enum SettingsError {
    UnknownTab,
}

/// A flat store of named string properties under dotted keys. A key read
/// before it was ever written holds the empty string.
pub struct Settings {
    props: Vec<(String, Property<String>)>,
}

impl Settings {
    /// The properties as a keyed table, in insertion order.
    pub closed spec fn entries_assoc(&self) -> Seq<(Seq<char>, Property<String>)> {
        Seq::new(self.props@.len(), |i: int| (self.props@[i].0@, self.props@[i].1))
    }

    /// The text stored under a key, if the key exists.
    pub open spec fn lookup_value(&self, key: Seq<char>) -> Option<Seq<char>> {
        match assoc_lookup(self.entries_assoc(), key) {
            Some(p) => Some(p.spec_value()@),
            None => None,
        }
    }

    /// Each key is stored at most once.
    pub open spec fn wf(&self) -> bool {
        assoc_distinct(self.entries_assoc())
    }

    /// An empty store.
    pub fn create_empty() -> (r: Settings)
        ensures
            r.wf(),
            r.entries_assoc() == Seq::<(Seq<char>, Property<String>)>::empty(),
    {
        let r = Settings { props: Vec::new() };
        proof {
            assert(r.entries_assoc() =~= Seq::<(Seq<char>, Property<String>)>::empty());
        }
        r
    }

    fn find_prop(&self, key: &str) -> (r: Option<usize>)
        ensures
            match r {
                Some(i) => i < self.entries_assoc().len() && self.entries_assoc()[i as int].0
                    == key@ && (forall|j: int|
                    0 <= j < i ==> self.entries_assoc()[j].0 != key@),
                None => assoc_lookup(self.entries_assoc(), key@) is None,
            },
    {
        let mut i: usize = 0;
        while i < self.props.len()
            invariant
                i <= self.props@.len(),
                forall|j: int| 0 <= j < i ==> self.entries_assoc()[j].0 != key@,
            decreases self.props@.len() - i,
        {
            if str_eq(self.props[i].0.as_str(), key) {
                return Some(i);
            }
            i = i + 1;
        }
        proof {
            lemma_assoc_none(self.entries_assoc(), key@);
        }
        None
    }

    /// The property stored under `key`; a key never written is first given
    /// an unmarked empty-string property, so the lookup always succeeds.
    pub fn get_string(&mut self, key: &str) -> (r: &Property<String>)
        requires
            old(self).wf(),
        ensures
            final(self).wf(),
            assoc_lookup(final(self).entries_assoc(), key@) == Some(*r),
            match assoc_lookup(old(self).entries_assoc(), key@) {
                Some(p) => *r == p && final(self).entries_assoc() == old(self).entries_assoc(),
                None => r.spec_value()@ == Seq::<char>::empty() && !r.spec_changed() && (forall|
                    k: Seq<char>,
                |
                    k != key@ ==> #[trigger] assoc_lookup(final(self).entries_assoc(), k)
                        == assoc_lookup(old(self).entries_assoc(), k)),
            },
    {
        let ghost pre = self.entries_assoc();
        let found = self.find_prop(key);
        match found {
            Some(i) => {
                proof {
                    lemma_assoc_at(pre, key@, i as int);
                }
                &self.props[i].1
            },
            None => {
                let idx = self.props.len();
                self.props.push((key.to_owned(), Property::new(String::new())));
                proof {
                    let e = (self.props@[idx as int].0@, self.props@[idx as int].1);
                    assert(self.entries_assoc() =~= pre.push(e));
                    lemma_assoc_push(pre, e);
                    lemma_assoc_distinct_push(pre, e);
                }
                &self.props[idx].1
            },
        }
    }

    /// Writes `value` under `key`, creating or replacing the property; the
    /// property comes out marked changed either way.
    pub fn set_string(&mut self, key: &str, value: String)
        requires
            old(self).wf(),
        ensures
            final(self).wf(),
            final(self).lookup_value(key@) == Some(value@),
            (assoc_lookup(final(self).entries_assoc(), key@) matches Some(p)
                && p.spec_changed()),
            forall|k: Seq<char>|
                k != key@ ==> #[trigger] assoc_lookup(final(self).entries_assoc(), k)
                    == assoc_lookup(old(self).entries_assoc(), k),
    {
        let ghost pre = self.entries_assoc();
        let found = self.find_prop(key);
        match found {
            Some(i) => {
                proof {
                    lemma_assoc_at(pre, key@, i as int);
                }
                let entry = self.props.remove(i);
                let (stored_key, mut prop) = entry;
                prop.set(value);
                self.props.insert(i, (stored_key, prop));
                proof {
                    let e = (self.props@[i as int].0@, self.props@[i as int].1);
                    assert(self.entries_assoc() =~= pre.update(i as int, e));
                    lemma_assoc_update(pre, i as int, e);
                    lemma_assoc_distinct_update(pre, i as int, e);
                }
            },
            None => {
                let idx = self.props.len();
                let mut prop = Property::new(String::new());
                prop.set(value);
                self.props.push((key.to_owned(), prop));
                proof {
                    let e = (self.props@[idx as int].0@, self.props@[idx as int].1);
                    assert(self.entries_assoc() =~= pre.push(e));
                    lemma_assoc_push(pre, e);
                    lemma_assoc_distinct_push(pre, e);
                }
            },
        }
    }

    /// The stored keys, in insertion order.
    pub fn get_properties(&self) -> (r: Vec<String>)
        ensures
            r@.len() == self.entries_assoc().len(),
            forall|i: int|
                0 <= i < r@.len() ==> #[trigger] r@[i]@ == self.entries_assoc()[i].0,
    {
        let mut result: Vec<String> = Vec::new();
        let mut i: usize = 0;
        while i < self.props.len()
            invariant
                i <= self.props@.len(),
                result@.len() == i,
                forall|j: int|
                    0 <= j < i ==> #[trigger] result@[j]@ == self.entries_assoc()[j].0,
            decreases self.props@.len() - i,
        {
            result.push(self.props[i].0.clone());
            i = i + 1;
        }
        result
    }

    /// The stored (key, value) pairs, in insertion order — the flat form a
    /// persistence collaborator nests and serializes.
    pub fn to_pairs(&self) -> (r: Vec<(String, String)>)
        ensures
            string_pairs_view(r@).len() == self.entries_assoc().len(),
            forall|i: int|
                0 <= i < r@.len() ==> #[trigger] string_pairs_view(r@)[i] == (
                    self.entries_assoc()[i].0,
                    self.entries_assoc()[i].1.spec_value()@,
                ),
    {
        let mut result: Vec<(String, String)> = Vec::new();
        let mut i: usize = 0;
        while i < self.props.len()
            invariant
                i <= self.props@.len(),
                result@.len() == i,
                forall|j: int|
                    0 <= j < i ==> #[trigger] string_pairs_view(result@)[j] == (
                        self.entries_assoc()[j].0,
                        self.entries_assoc()[j].1.spec_value()@,
                    ),
            decreases self.props@.len() - i,
        {
            let ghost pre_res = result@;
            result.push((self.props[i].0.clone(), self.props[i].1.get().clone()));
            proof {
                assert(string_pairs_view(result@) =~= string_pairs_view(pre_res).push(
                    (self.props@[i as int].0@, self.props@[i as int].1.spec_value()@),
                ));
            }
            i = i + 1;
        }
        result
    }

    /// Builds a store from a configuration tree: the tree is flattened to
    /// dotted keys, and where the tree yields one key twice the later value
    /// wins. No property comes out marked changed.
    pub fn init_from_tree(entries: &Vec<ConfigEntry>) -> (r: Settings)
        ensures
            r.wf(),
            forall|k: Seq<char>|
                #[trigger] r.lookup_value(k) == assoc_lookup_last(
                    flatten_from(*entries, Seq::empty(), 0),
                    k,
                ),
            forall|i: int|
                0 <= i < r.entries_assoc().len() ==> !(#[trigger] r.entries_assoc()[i].1).spec_changed(),
    {
        let ghost flat = flatten_from(*entries, Seq::empty(), 0);
        let mut pairs: Vec<(String, String)> = Vec::new();
        flatten_entries(entries, "", &mut pairs);
        proof {
            assert(string_pairs_view(Seq::<(String, String)>::empty()) =~= Seq::<
                (Seq<char>, Seq<char>),
            >::empty());
            assert(""@ =~= Seq::<char>::empty()) by {
                reveal_strlit("");
            }
            assert(flatten_from(*entries, ""@, 0) == flat);
            assert(string_pairs_view(pairs@) == flat);
        }
        let mut store = Settings::create_empty();
        let mut i: usize = 0;
        proof {
            assert(flat.take(0) =~= Seq::<(Seq<char>, Seq<char>)>::empty());
        }
        while i < pairs.len()
            invariant
                i <= pairs@.len(),
                string_pairs_view(pairs@) == flat,
                store.wf(),
                forall|k: Seq<char>|
                    #[trigger] store.lookup_value(k) == assoc_lookup_last(
                        flat.take(i as int),
                        k,
                    ),
                forall|w: int|
                    0 <= w < store.entries_assoc().len() ==> !(#[trigger] store.entries_assoc()[w].1).spec_changed(),
            decreases pairs@.len() - i,
        {
            let ghost pre_store = store;
            let key = pairs[i].0.clone();
            let value = pairs[i].1.clone();
            store.put_unmarked(key.as_str(), value);
            proof {
                assert(flat.take(i as int + 1).drop_last() =~= flat.take(i as int));
                assert(flat.take(i as int + 1).last() == flat[i as int]);
                assert(flat[i as int] == (pairs@[i as int].0@, pairs@[i as int].1@));
                assert forall|k: Seq<char>| #[trigger] store.lookup_value(k)
                    == assoc_lookup_last(flat.take(i as int + 1), k) by {
                    if k == key@ {
                        assert(store.lookup_value(k) == Some(pairs@[i as int].1@));
                        assert(assoc_lookup_last(flat.take(i as int + 1), k) == Some(
                            flat[i as int].1,
                        ));
                    } else {
                        assert(pre_store.lookup_value(k) == assoc_lookup_last(
                            flat.take(i as int),
                            k,
                        ));
                        assert(assoc_lookup(store.entries_assoc(), k) == assoc_lookup(
                            pre_store.entries_assoc(),
                            k,
                        ));
                        assert(assoc_lookup_last(flat.take(i as int + 1), k)
                            == assoc_lookup_last(flat.take(i as int), k));
                    }
                }
            }
            i = i + 1;
        }
        proof {
            assert(flat.take(pairs@.len() as int) =~= flat);
        }
        store
    }

    /// Writes `value` under `key` without marking it changed: loading a
    /// store is not a pending edit.
    fn put_unmarked(&mut self, key: &str, value: String)
        requires
            old(self).wf(),
        ensures
            final(self).wf(),
            final(self).lookup_value(key@) == Some(value@),
            (assoc_lookup(final(self).entries_assoc(), key@) matches Some(p)
                && !p.spec_changed()),
            forall|k: Seq<char>|
                k != key@ ==> #[trigger] assoc_lookup(final(self).entries_assoc(), k)
                    == assoc_lookup(old(self).entries_assoc(), k),
            forall|w: int|
                0 <= w < final(self).entries_assoc().len() ==> (#[trigger] final(self).entries_assoc()[w].1).spec_changed() ==> exists|w2: int|
                    0 <= w2 < old(self).entries_assoc().len() && old(self).entries_assoc()[w2].1.spec_changed(),
    {
        let ghost pre = self.entries_assoc();
        let found = self.find_prop(key);
        match found {
            Some(i) => {
                proof {
                    lemma_assoc_at(pre, key@, i as int);
                }
                let entry = self.props.remove(i);
                let (stored_key, _prop) = entry;
                self.props.insert(i, (stored_key, Property::new(value)));
                proof {
                    let e = (self.props@[i as int].0@, self.props@[i as int].1);
                    assert(self.entries_assoc() =~= pre.update(i as int, e));
                    lemma_assoc_update(pre, i as int, e);
                    lemma_assoc_distinct_update(pre, i as int, e);
                    assert forall|w: int|
                        0 <= w < self.entries_assoc().len() && (#[trigger] self.entries_assoc()[w].1).spec_changed() implies exists|w2: int|
                        0 <= w2 < pre.len() && pre[w2].1.spec_changed() by {
                        assert(w != i);
                        assert(pre[w].1.spec_changed());
                    }
                }
            },
            None => {
                self.props.push((key.to_owned(), Property::new(value)));
                proof {
                    let idx = pre.len() as int;
                    let e = (self.props@[idx].0@, self.props@[idx].1);
                    assert(self.entries_assoc() =~= pre.push(e));
                    lemma_assoc_push(pre, e);
                    lemma_assoc_distinct_push(pre, e);
                    assert forall|w: int|
                        0 <= w < self.entries_assoc().len() && (#[trigger] self.entries_assoc()[w].1).spec_changed() implies exists|w2: int|
                        0 <= w2 < pre.len() && pre[w2].1.spec_changed() by {
                        assert(w != idx);
                        assert(pre[w].1.spec_changed());
                    }
                }
            },
        }
    }
}


/// One property on the operator surface, named by its full dotted key.
#[derive(Clone, Debug)]
pub struct PropertyDescription {
    pub name: String,
}

/// One section of a tab, holding properties.
#[derive(Clone, Debug)]
pub struct SectionDescription {
    pub name: String,
    pub properties: Vec<PropertyDescription>,
}

/// One tab of the operator surface, holding sections.
#[derive(Clone, Debug)]
pub struct TabDescription {
    pub name: String,
    pub sections: Vec<SectionDescription>,
}

/// Whether the description lists `path` as a property of `section` under
/// `tab`.
pub open spec fn property_listed(
    tabs: Seq<TabDescription>,
    tab: Seq<char>,
    section: Seq<char>,
    path: Seq<char>,
) -> bool {
    exists|ti: int|
        0 <= ti < tabs.len() && (#[trigger] tabs[ti]).name@ == tab && exists|si: int|
            0 <= si < tabs[ti].sections@.len() && (#[trigger] tabs[ti].sections@[si]).name@
                == section && exists|pi: int|
                0 <= pi < tabs[ti].sections@[si].properties@.len()
                    && (#[trigger] tabs[ti].sections@[si].properties@[pi]).name@ == path
}

impl TabDescription {
    /// The position of the first section with this name, if any.
    pub fn get_section(&self, section_name: &str) -> (r: Option<usize>)
        ensures
            match r {
                Some(i) => i < self.sections@.len() && self.sections@[i as int].name@
                    == section_name@ && (forall|j: int|
                    0 <= j < i ==> self.sections@[j].name@ != section_name@),
                None => forall|j: int|
                    0 <= j < self.sections@.len() ==> self.sections@[j].name@ != section_name@,
            },
    {
        let mut i: usize = 0;
        while i < self.sections.len()
            invariant
                i <= self.sections@.len(),
                forall|j: int| 0 <= j < i ==> self.sections@[j].name@ != section_name@,
            decreases self.sections@.len() - i,
        {
            if str_eq(self.sections[i].name.as_str(), section_name) {
                return Some(i);
            }
            i = i + 1;
        }
        None
    }

    /// The position of the first section with this name, appending an empty
    /// one when there is none. Existing sections are never touched.
    fn get_or_add_section(&mut self, section_name: &str) -> (i: usize)
        ensures
            final(self).name == old(self).name,
            i < final(self).sections@.len(),
            final(self).sections@[i as int].name@ == section_name@,
            old(self).sections@.len() <= final(self).sections@.len() <= old(self).sections@.len() + 1,
            forall|j: int|
                0 <= j < old(self).sections@.len() ==> #[trigger] final(self).sections@[j] == old(self).sections@[j],
            final(self).sections@.len() == old(self).sections@.len() + 1 ==> i == old(self).sections@.len() && final(self).sections@[i as int].properties@ == Seq::<
                PropertyDescription,
            >::empty(),
    {
        let found = self.get_section(section_name);
        match found {
            Some(i) => i,
            None => {
                let i = self.sections.len();
                self.sections.push(
                    SectionDescription { name: section_name.to_owned(), properties: Vec::new() },
                );
                i
            },
        }
    }
}

/// The whole operator surface: tabs of sections of properties.
pub struct SettingsDescription {
    tabs: Vec<TabDescription>,
}

impl SettingsDescription {
    /// The tabs, in the order they were first mentioned.
    pub closed spec fn tabs_seq(&self) -> Seq<TabDescription> {
        self.tabs@
    }

    /// An empty description.
    pub fn empty() -> (r: SettingsDescription)
        ensures
            r.tabs_seq() == Seq::<TabDescription>::empty(),
    {
        SettingsDescription { tabs: Vec::new() }
    }

    /// Drops every tab.
    pub fn clear(&mut self)
        ensures
            final(self).tabs_seq() == Seq::<TabDescription>::empty(),
    {
        self.tabs.clear();
    }

    /// The position of the first tab with this name, if any.
    pub fn get_tab(&self, tab_name: &str) -> (r: Option<usize>)
        ensures
            match r {
                Some(i) => i < self.tabs_seq().len() && self.tabs_seq()[i as int].name@
                    == tab_name@ && (forall|j: int|
                    0 <= j < i ==> self.tabs_seq()[j].name@ != tab_name@),
                None => forall|j: int|
                    0 <= j < self.tabs_seq().len() ==> self.tabs_seq()[j].name@ != tab_name@,
            },
    {
        let mut i: usize = 0;
        while i < self.tabs.len()
            invariant
                i <= self.tabs@.len(),
                forall|j: int| 0 <= j < i ==> self.tabs@[j].name@ != tab_name@,
            decreases self.tabs@.len() - i,
        {
            if str_eq(self.tabs[i].name.as_str(), tab_name) {
                return Some(i);
            }
            i = i + 1;
        }
        None
    }

    /// The position of the first tab with this name, appending an empty one
    /// when there is none. Existing tabs are never touched.
    fn get_or_add_tab(&mut self, tab_name: &str) -> (i: usize)
        ensures
            i < final(self).tabs_seq().len(),
            final(self).tabs_seq()[i as int].name@ == tab_name@,
            old(self).tabs_seq().len() <= final(self).tabs_seq().len() <= old(self).tabs_seq().len() + 1,
            forall|j: int|
                0 <= j < old(self).tabs_seq().len() ==> #[trigger] final(self).tabs_seq()[j]
                    == old(self).tabs_seq()[j],
            final(self).tabs_seq().len() == old(self).tabs_seq().len() + 1 ==> i == old(self).tabs_seq().len() && final(self).tabs_seq()[i as int].sections@ == Seq::<
                SectionDescription,
            >::empty(),
    {
        let found = self.get_tab(tab_name);
        match found {
            Some(i) => i,
            None => {
                let i = self.tabs.len();
                self.tabs.push(TabDescription { name: tab_name.to_owned(), sections: Vec::new() });
                i
            },
        }
    }
}


/// Whether a dotted key has the tab.section.property shape: at least two
/// dots, so a tab and a section name come before the property.
pub open spec fn has_two_dots(s: Seq<char>) -> bool {
    &&& spec_find_char(s, '.') is Some
    &&& spec_find_char(s.subrange(spec_find_char(s, '.')->Some_0 + 1, s.len() as int), '.')
        is Some
}

/// The tab a dotted key files under: the text before the first dot.
pub open spec fn tab_of(s: Seq<char>) -> Seq<char> {
    s.subrange(0, spec_find_char(s, '.')->Some_0)
}

/// The section a dotted key files under: the text between the first two
/// dots.
pub open spec fn section_of(s: Seq<char>) -> Seq<char> {
    let rest = s.subrange(spec_find_char(s, '.')->Some_0 + 1, s.len() as int);
    rest.subrange(0, spec_find_char(rest, '.')->Some_0)
}

impl SectionDescription {
    /// Lists `path` in this section, once.
    fn add_prop(&mut self, path: &str)
        ensures
            final(self).name == old(self).name,
            old(self).properties@.len() <= final(self).properties@.len() <= old(self).properties@.len() + 1,
            forall|j: int|
                0 <= j < old(self).properties@.len() ==> #[trigger] final(self).properties@[j]
                    == old(self).properties@[j],
            exists|pi: int|
                0 <= pi < final(self).properties@.len() && (#[trigger] final(self).properties@[
                    pi
                ]).name@ == path@,
    {
        let mut i: usize = 0;
        while i < self.properties.len()
            invariant
                i <= self.properties@.len(),
                forall|j: int| 0 <= j < i ==> self.properties@[j].name@ != path@,
            decreases self.properties@.len() - i,
        {
            if str_eq(self.properties[i].name.as_str(), path) {
                return ;
            }
            i = i + 1;
        }
        let ghost n = self.properties@.len();
        self.properties.push(PropertyDescription { name: path.to_owned() });
        proof {
            assert(self.properties@[n as int].name@ == path@);
        }
    }
}

impl TabDescription {
    /// Lists `path` in the section at position `si`, once; every other
    /// section is untouched.
    fn add_property_to_section(&mut self, si: usize, path: &str)
        requires
            si < old(self).sections@.len(),
        ensures
            final(self).name == old(self).name,
            final(self).sections@.len() == old(self).sections@.len(),
            forall|j: int|
                0 <= j < old(self).sections@.len() && j != si ==> #[trigger] final(self).sections@[j] == old(self).sections@[j],
            final(self).sections@[si as int].name == old(self).sections@[si as int].name,
            old(self).sections@[si as int].properties@.len() <= final(self).sections@[
                si as int
            ].properties@.len(),
            forall|j: int|
                0 <= j < old(self).sections@[si as int].properties@.len()
                    ==> #[trigger] final(self).sections@[si as int].properties@[j] == old(self).sections@[si as int].properties@[j],
            exists|pi: int|
                0 <= pi < final(self).sections@[si as int].properties@.len()
                    && (#[trigger] final(self).sections@[si as int].properties@[pi]).name@
                    == path@,
    {
        let section = &mut self.sections[si];
        section.add_prop(path);
    }
}

impl SettingsDescription {
    /// Files one dotted key on the operator surface: the first segment
    /// names the tab, the second the section, and the property is listed
    /// under them by its full key, once. Nothing already listed is dropped.
    pub fn add_property(&mut self, property_path: &str)
        requires
            has_two_dots(property_path@),
        ensures
            property_listed(
                final(self).tabs_seq(),
                tab_of(property_path@),
                section_of(property_path@),
                property_path@,
            ),
            forall|t: Seq<char>, sct: Seq<char>, p: Seq<char>|
                property_listed(old(self).tabs_seq(), t, sct, p) ==> #[trigger] property_listed(
                    final(self).tabs_seq(),
                    t,
                    sct,
                    p,
                ),
    {
        let len = property_path.unicode_len();
        let d1 = match find_char(property_path, '.') {
            Some(d1) => d1,
            None => {
                proof {
                    assert(false);
                }
                return ;
            },
        };
        let tab_name = substring_copy(property_path, 0, d1);
        let rest = substring_copy(property_path, d1 + 1, len);
        let d2 = match find_char(rest.as_str(), '.') {
            Some(d2) => d2,
            None => {
                proof {
                    assert(false);
                }
                return ;
            },
        };
        let section_name = substring_copy(rest.as_str(), 0, d2);
        proof {
            assert(tab_name@ == tab_of(property_path@));
            assert(section_name@ == section_of(property_path@));
        }
        let ghost pre = self.tabs_seq();
        let ti = self.get_or_add_tab(tab_name.as_str());
        let ghost mid = self.tabs_seq();
        let tab_ref = &mut self.tabs[ti];
        let si = tab_ref.get_or_add_section(section_name.as_str());
        tab_ref.add_property_to_section(si, property_path);
        proof {
            assert(self.tabs_seq() =~= mid.update(ti as int, self.tabs_seq()[ti as int]));
            assert(self.tabs_seq()[ti as int].name@ == tab_of(property_path@));
            assert(self.tabs_seq()[ti as int].sections@[si as int].name@ == section_of(
                property_path@,
            ));
            assert(property_listed(
                self.tabs_seq(),
                tab_of(property_path@),
                section_of(property_path@),
                property_path@,
            ));
            assert forall|t: Seq<char>, sct: Seq<char>, p: Seq<char>|
                property_listed(pre, t, sct, p) implies #[trigger] property_listed(
                self.tabs_seq(),
                t,
                sct,
                p,
            ) by {
                let tj = choose|tj: int|
                    0 <= tj < pre.len() && (#[trigger] pre[tj]).name@ == t && exists|sj: int|
                        0 <= sj < pre[tj].sections@.len() && (#[trigger] pre[tj].sections@[
                            sj
                        ]).name@ == sct && exists|pj: int|
                            0 <= pj < pre[tj].sections@[sj].properties@.len()
                                && (#[trigger] pre[tj].sections@[sj].properties@[pj]).name@ == p;
                let sj = choose|sj: int|
                    0 <= sj < pre[tj].sections@.len() && (#[trigger] pre[tj].sections@[sj]).name@
                        == sct && exists|pj: int|
                        0 <= pj < pre[tj].sections@[sj].properties@.len()
                            && (#[trigger] pre[tj].sections@[sj].properties@[pj]).name@ == p;
                let pj = choose|pj: int|
                    0 <= pj < pre[tj].sections@[sj].properties@.len() && (#[trigger] pre[
                        tj
                    ].sections@[sj].properties@[pj]).name@ == p;
                assert(mid[tj] == pre[tj]);
                if tj != ti {
                    assert(self.tabs_seq()[tj] == pre[tj]);
                } else {
                    let cur = self.tabs_seq()[tj];
                    assert(cur.name@ == t);
                    if sj != si {
                        assert(cur.sections@[sj] == pre[tj].sections@[sj]);
                    } else {
                        assert(cur.sections@[sj].name == pre[tj].sections@[sj].name);
                        assert(cur.sections@[sj].properties@[pj] == pre[tj].sections@[
                            sj
                        ].properties@[pj]);
                    }
                }
            }
        }
    }

    /// Files each of the given dotted keys; see [`Self::add_property`].
    pub fn add_properties(&mut self, properties: &Vec<String>)
        requires
            forall|i: int| 0 <= i < properties@.len() ==> has_two_dots(#[trigger] properties@[i]@),
        ensures
            forall|i: int|
                0 <= i < properties@.len() ==> #[trigger] property_listed(
                    final(self).tabs_seq(),
                    tab_of(properties@[i]@),
                    section_of(properties@[i]@),
                    properties@[i]@,
                ),
            forall|t: Seq<char>, sct: Seq<char>, p: Seq<char>|
                property_listed(old(self).tabs_seq(), t, sct, p) ==> #[trigger] property_listed(
                    final(self).tabs_seq(),
                    t,
                    sct,
                    p,
                ),
    {
        let mut i: usize = 0;
        while i < properties.len()
            invariant
                i <= properties@.len(),
                forall|j: int| 0 <= j < properties@.len() ==> has_two_dots(#[trigger] properties@[j]@),
                forall|j: int|
                    0 <= j < i ==> #[trigger] property_listed(
                        self.tabs_seq(),
                        tab_of(properties@[j]@),
                        section_of(properties@[j]@),
                        properties@[j]@,
                    ),
                forall|t: Seq<char>, sct: Seq<char>, p: Seq<char>|
                    property_listed(old(self).tabs_seq(), t, sct, p)
                        ==> #[trigger] property_listed(self.tabs_seq(), t, sct, p),
            decreases properties@.len() - i,
        {
            self.add_property(properties[i].as_str());
            i = i + 1;
        }
    }
}

/// The manager of registered settings stores: value reads and writes go to
/// the first registered store, and the operator surface is regenerated from
/// every registered store's keys.
pub struct SettingsManager {
    settings_list: Vec<Settings>,
    settings_description: SettingsDescription,
}

/// Every key of every store has the tab.section.property shape.
pub open spec fn all_keys_shaped(stores: Seq<Settings>) -> bool {
    forall|i: int, k: int|
        0 <= i < stores.len() && 0 <= k < (#[trigger] stores[i]).entries_assoc().len()
            ==> has_two_dots(#[trigger] stores[i].entries_assoc()[k].0)
}

impl SettingsManager {
    /// The registered stores, in registration order.
    pub closed spec fn stores_seq(&self) -> Seq<Settings> {
        self.settings_list@
    }

    /// The operator surface description.
    pub closed spec fn description(&self) -> SettingsDescription {
        self.settings_description
    }

    /// Every registered store keys its properties at most once.
    pub open spec fn wf(&self) -> bool {
        forall|i: int| 0 <= i < self.stores_seq().len() ==> (#[trigger] self.stores_seq()[i]).wf()
    }

    pub fn new() -> (r: SettingsManager)
        ensures
            r.wf(),
            r.stores_seq() == Seq::<Settings>::empty(),
            r.description().tabs_seq() == Seq::<TabDescription>::empty(),
    {
        SettingsManager {
            settings_list: Vec::new(),
            settings_description: SettingsDescription::empty(),
        }
    }

    /// Registers one more store.
    pub fn register_settings(&mut self, settings: Settings)
        requires
            old(self).wf(),
            settings.wf(),
        ensures
            final(self).wf(),
            final(self).stores_seq() == old(self).stores_seq().push(settings),
            final(self).description() == old(self).description(),
    {
        self.settings_list.push(settings);
        proof {
            assert forall|i: int|
                0 <= i < self.stores_seq().len() implies (#[trigger] self.stores_seq()[i]).wf() by {
                if i < old(self).stores_seq().len() {
                    assert(old(self).stores_seq()[i].wf());
                }
            }
        }
    }

    /// The tab names of the operator surface, in order.
    pub fn get_tabs(&self) -> (r: Vec<String>)
        ensures
            r@.len() == self.description().tabs_seq().len(),
            forall|i: int|
                0 <= i < r@.len() ==> #[trigger] r@[i]@ == self.description().tabs_seq()[i].name@,
    {
        let mut result: Vec<String> = Vec::new();
        let mut i: usize = 0;
        while i < self.settings_description.tabs.len()
            invariant
                i <= self.description().tabs_seq().len(),
                result@.len() == i,
                forall|j: int|
                    0 <= j < i ==> #[trigger] result@[j]@ == self.description().tabs_seq()[
                        j
                    ].name@,
            decreases self.description().tabs_seq().len() - i,
        {
            result.push(self.settings_description.tabs[i].name.clone());
            i = i + 1;
        }
        result
    }

    /// The description of the named tab; fails exactly when no tab has the
    /// name.
    pub fn get_tab(&self, tab_name: &str) -> (r: Result<&TabDescription, SettingsError>)
        ensures
            match r {
                Ok(t) => exists|i: int|
                    0 <= i < self.description().tabs_seq().len()
                        && *t == #[trigger] self.description().tabs_seq()[i] && t.name@
                        == tab_name@,
                Err(e) => e == SettingsError::UnknownTab && (forall|i: int|
                    0 <= i < self.description().tabs_seq().len()
                        ==> (#[trigger] self.description().tabs_seq()[i]).name@ != tab_name@),
            },
    {
        let found = self.settings_description.get_tab(tab_name);
        match found {
            Some(i) => {
                proof {
                    assert(self.description().tabs_seq()[i as int].name@ == tab_name@);
                }
                Ok(&self.settings_description.tabs[i])
            },
            None => Err(SettingsError::UnknownTab),
        }
    }

    /// The value stored under `key` in the first registered store; a key
    /// never written reads as the empty string (and is created so that it
    /// lists on the next regeneration).
    pub fn get_string_value(&mut self, key: &str) -> (r: String)
        requires
            old(self).wf(),
            old(self).stores_seq().len() > 0,
        ensures
            final(self).wf(),
            final(self).description() == old(self).description(),
            final(self).stores_seq().len() == old(self).stores_seq().len(),
            forall|i: int|
                1 <= i < old(self).stores_seq().len() ==> #[trigger] final(self).stores_seq()[i]
                    == old(self).stores_seq()[i],
            match old(self).stores_seq()[0].lookup_value(key@) {
                Some(v) => r@ == v && final(self).stores_seq()[0].entries_assoc() == old(
                    self,
                ).stores_seq()[0].entries_assoc(),
                None => r@ == Seq::<char>::empty() && final(self).stores_seq()[0].lookup_value(
                    key@,
                ) == Some(Seq::<char>::empty()) && (forall|k: Seq<char>|
                    k != key@ ==> #[trigger] final(self).stores_seq()[0].lookup_value(k) == old(self).stores_seq()[0].lookup_value(k)),
            },
    {
        let value = {
            let store = &mut self.settings_list[0];
            let prop = store.get_string(key);
            prop.get().clone()
        };
        proof {
            assert forall|i: int|
                0 <= i < self.stores_seq().len() implies (#[trigger] self.stores_seq()[i]).wf() by {
                if i >= 1 {
                    assert(self.stores_seq()[i] == old(self).stores_seq()[i]);
                    assert(old(self).stores_seq()[i].wf());
                }
            }
        }
        value
    }

    /// Writes `data` under `key` in the first registered store.
    pub fn set_string_value(&mut self, key: &str, data: String)
        requires
            old(self).wf(),
            old(self).stores_seq().len() > 0,
        ensures
            final(self).wf(),
            final(self).description() == old(self).description(),
            final(self).stores_seq().len() == old(self).stores_seq().len(),
            forall|i: int|
                1 <= i < old(self).stores_seq().len() ==> #[trigger] final(self).stores_seq()[i]
                    == old(self).stores_seq()[i],
            final(self).stores_seq()[0].lookup_value(key@) == Some(data@),
            forall|k: Seq<char>|
                k != key@ ==> #[trigger] final(self).stores_seq()[0].lookup_value(k) == old(self).stores_seq()[0].lookup_value(k),
    {
        let store = &mut self.settings_list[0];
        store.set_string(key, data);
        proof {
            assert forall|i: int|
                0 <= i < self.stores_seq().len() implies (#[trigger] self.stores_seq()[i]).wf() by {
                if i >= 1 {
                    assert(self.stores_seq()[i] == old(self).stores_seq()[i]);
                    assert(old(self).stores_seq()[i].wf());
                }
            }
        }
    }

    /// Rebuilds the operator surface from scratch: every key of every
    /// registered store is filed under its tab and section.
    pub fn regenerate_settings_description(&mut self)
        requires
            old(self).wf(),
            all_keys_shaped(old(self).stores_seq()),
        ensures
            final(self).wf(),
            final(self).stores_seq() == old(self).stores_seq(),
            forall|i: int, k: int|
                0 <= i < old(self).stores_seq().len() && 0 <= k < (#[trigger] old(self).stores_seq()[i]).entries_assoc().len() ==> property_listed(
                    final(self).description().tabs_seq(),
                    tab_of(#[trigger] old(self).stores_seq()[i].entries_assoc()[k].0),
                    section_of(old(self).stores_seq()[i].entries_assoc()[k].0),
                    old(self).stores_seq()[i].entries_assoc()[k].0,
                ),
    {
        self.settings_description.clear();
        let mut si: usize = 0;
        while si < self.settings_list.len()
            invariant
                si <= self.stores_seq().len(),
                self.stores_seq() == old(self).stores_seq(),
                all_keys_shaped(self.stores_seq()),
                forall|i: int, k: int|
                    0 <= i < si && 0 <= k < (#[trigger] self.stores_seq()[
                        i
                    ]).entries_assoc().len() ==> property_listed(
                        self.description().tabs_seq(),
                        tab_of(#[trigger] self.stores_seq()[i].entries_assoc()[k].0),
                        section_of(self.stores_seq()[i].entries_assoc()[k].0),
                        self.stores_seq()[i].entries_assoc()[k].0,
                    ),
            decreases self.stores_seq().len() - si,
        {
            let keys = self.settings_list[si].get_properties();
            proof {
                assert forall|j: int| 0 <= j < keys@.len() implies has_two_dots(
                    #[trigger] keys@[j]@,
                ) by {
                    assert(keys@[j]@ == self.stores_seq()[si as int].entries_assoc()[j].0);
                }
            }
            self.settings_description.add_properties(&keys);
            proof {
                assert forall|i: int, k: int|
                    0 <= i < si + 1 && 0 <= k < (#[trigger] self.stores_seq()[
                        i
                    ]).entries_assoc().len() implies property_listed(
                    self.description().tabs_seq(),
                    tab_of(#[trigger] self.stores_seq()[i].entries_assoc()[k].0),
                    section_of(self.stores_seq()[i].entries_assoc()[k].0),
                    self.stores_seq()[i].entries_assoc()[k].0,
                ) by {
                    if i == si {
                        assert(keys@[k]@ == self.stores_seq()[i].entries_assoc()[k].0);
                    }
                }
            }
            si = si + 1;
        }
    }
}

} // verus!
