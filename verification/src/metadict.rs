//! The meta dictionary: the definitions that say what a file's objects mean.
//!
//! An AAF file describes itself. Alongside its content it carries a meta
//! dictionary listing every class it uses, every property those classes have,
//! and every type those properties are. Without it a property is a number and
//! some bytes; with it, property `0x4403` on a mob is `Slots`, a set of
//! `MobSlot` objects.
//!
//! # Inheritance
//!
//! Classes form a single-inheritance tree, and a class holds only the
//! properties it adds. The ones it inherits live on its ancestors, so
//! [`MetaDictionary::all_properties`] and [`MetaDictionary::property`] walk up
//! the parent chain. The root of the tree, `InterchangeObject`, is its own
//! parent, which is how the walk knows to stop.

use vstd::prelude::*;

use crate::auid::Auid;
use crate::bytes::{array16, le16, le32, le64, read_u16, read_u32, read_u64};
use crate::error::{Error, Result};
use crate::cfb::file::CompoundFile;
use crate::cfb::file::stream_content;
use crate::object::{
    named_child, object_read, object_readable, ref_readable, set_members, set_readable, weak_array_readable, AafFile, Object,
};
use crate::property::{weak_index_of, KeyView, Property, PropertyValue, RefKey};
use crate::text::{push_str, same_text};
use crate::utf16::decode_le;
use crate::value::{ints_fit, texts, utf16_strings, utf16_strings_of};

verus! {

/// One property a class declares.
#[derive(Debug, Clone, PartialEq, Eq)]
pub struct PropertyDef {
    /// The property's own identifier, unique across all of AAF.
    pub auid: Auid,
    /// The property's name, as applications show it.
    pub name: String,
    /// The property's identifier within its class, as stored on disk.
    pub pid: u16,
    /// The type of the property's value.
    pub type_id: Auid,
    /// Whether an object of this class may leave the property out.
    pub optional: bool,
    /// Whether this property is its class's unique key.
    ///
    /// Sets of objects are keyed by whichever property this is true of.
    pub unique: bool,
}

/// One class the file uses.
#[derive(Debug, Clone, PartialEq, Eq)]
pub struct ClassDef {
    /// The class's identifier, which is what a storage entry carries.
    pub auid: Auid,
    /// The class's name, as applications show it.
    pub name: String,
    /// The class this one inherits from. The root class is its own parent.
    pub parent: Auid,
    /// Whether objects of this class can exist, as opposed to only its
    /// subclasses'.
    pub concrete: bool,
    /// The properties this class adds, in pid order. Inherited ones are on
    /// its ancestors.
    pub properties: Vec<PropertyDef>,
}

/// One type the file uses.
///
/// The variants are AAF's own type categories. Every one carries its identity
/// and name; the rest of each variant is what that category needs to describe
/// a value, with other types referred to by identifier rather than inlined,
/// because types are freely recursive.
#[derive(Debug, Clone, PartialEq, Eq)]
#[non_exhaustive]
pub enum TypeKind {
    /// An integer of a given width and signedness.
    Int {
        /// The width in bytes: 1, 2, 4 or 8.
        size: u8,
        /// Whether the integer is signed.
        signed: bool,
    },
    /// A reference to an object this one owns.
    StrongRef {
        /// The class of object referred to.
        target: Auid,
    },
    /// A reference to an object owned elsewhere in the file.
    WeakRef {
        /// The class of object referred to.
        target: Auid,
        /// The path of properties, from the root, to where those objects are
        /// owned.
        target_set: Vec<Auid>,
    },
    /// A named set of integer values.
    Enum {
        /// The underlying integer type.
        element_type: Auid,
        /// The elements, as value and name.
        elements: Vec<(i64, String)>,
    },
    /// A fixed number of elements of one type.
    FixedArray {
        /// The element type.
        element_type: Auid,
        /// How many elements there always are.
        count: u32,
    },
    /// Any number of elements of one type, in order.
    VarArray {
        /// The element type.
        element_type: Auid,
    },
    /// Any number of elements of one type, unordered.
    ElementSet {
        /// The element type.
        element_type: Auid,
    },
    /// A string of characters.
    String {
        /// The character type.
        element_type: Auid,
    },
    /// A stream of bytes, stored outside the property.
    Stream,
    /// Named members of their own types, stored one after another.
    Record {
        /// The members, as name and type, in storage order.
        members: Vec<(String, Auid)>,
    },
    /// Another name for an existing type.
    Rename {
        /// The type this is an alias for.
        renamed: Auid,
    },
    /// A set of named values that a file may add to.
    ExtEnum {
        /// The elements, as value and name.
        elements: Vec<(Auid, String)>,
    },
    /// A value that carries its own type.
    Indirect,
    /// A value whose type the reader is not expected to know.
    Opaque,
    /// A single character.
    Character,
    /// A category this reader does not know.
    Unknown {
        /// The class of the definition object, which is what says the category.
        class_id: Auid,
    },
}

/// One type definition: its identity, its name and its category.
#[derive(Debug, Clone, PartialEq, Eq)]
pub struct TypeDef {
    /// The type's identifier, which is what a property definition refers to.
    pub auid: Auid,
    /// The type's name, as applications show it.
    pub name: String,
    /// What kind of type it is, and the detail that kind needs.
    pub kind: TypeKind,
}

/// A file's class, property and type definitions.
///
/// Each table is a list with no key twice, read as a map from key to entry.
#[derive(Debug, Clone)]
pub struct MetaDictionary {
    classes: Vec<ClassDef>,
    types: Vec<TypeDef>,
    classes_by_name: Vec<(String, Auid)>,
    types_by_name: Vec<(String, Auid)>,
}

/// The map that takes each of `keys` to the value at the same position.
pub open spec fn keyed<K, V>(keys: Seq<K>, vals: Seq<V>) -> Map<K, V> {
    Map::new(|k: K| keys.contains(k), |k: K| vals[keys.index_of(k)])
}

/// The identifiers of a list of classes.
pub open spec fn class_keys(cs: Seq<ClassDef>) -> Seq<Seq<u8>> {
    cs.map_values(|c: ClassDef| c.auid@)
}

/// The identifiers of a list of types.
pub open spec fn type_keys(ts: Seq<TypeDef>) -> Seq<Seq<u8>> {
    ts.map_values(|t: TypeDef| t.auid@)
}

/// The names of a list of name entries.
pub open spec fn name_keys(ns: Seq<(String, Auid)>) -> Seq<Seq<char>> {
    ns.map_values(|n: (String, Auid)| n.0@)
}

/// The identifiers a list of name entries gives.
pub open spec fn name_targets(ns: Seq<(String, Auid)>) -> Seq<Seq<u8>> {
    ns.map_values(|n: (String, Auid)| n.1@)
}

/// In a list with no key twice, each key finds its own position.
pub proof fn lemma_keyed_at<K, V>(keys: Seq<K>, vals: Seq<V>, i: int)
    requires
        keys.no_duplicates(),
        keys.len() == vals.len(),
        0 <= i < keys.len(),
    ensures
        keyed(keys, vals).contains_key(keys[i]),
        keyed(keys, vals)[keys[i]] == vals[i],
{
    assert(keys.contains(keys[i]));
    let j = keys.index_of(keys[i]);
    assert(0 <= j < keys.len() && keys[j] == keys[i]);
}

/// Replacing the value at a key's position replaces it in the map.
pub proof fn lemma_keyed_set<K, V>(keys: Seq<K>, vals: Seq<V>, i: int, v: V)
    requires
        keys.no_duplicates(),
        keys.len() == vals.len(),
        0 <= i < keys.len(),
    ensures
        keyed(keys, vals.update(i, v)) == keyed(keys, vals).insert(keys[i], v),
{
    let a = keyed(keys, vals.update(i, v));
    let b = keyed(keys, vals).insert(keys[i], v);
    assert forall|k: K| a.contains_key(k) implies a[k] == b[k] by {
        let j = keys.index_of(k);
        assert(0 <= j < keys.len() && keys[j] == k);
        if k != keys[i] {
            assert(j != i);
        } else {
            assert(j == i);
        }
    }
    assert(a.dom() =~= b.dom());
    assert(a =~= b);
}

/// Adding a new key at the end adds it to the map.
pub proof fn lemma_keyed_push<K, V>(keys: Seq<K>, vals: Seq<V>, k: K, v: V)
    requires
        keys.no_duplicates(),
        keys.len() == vals.len(),
        !keys.contains(k),
    ensures
        keys.push(k).no_duplicates(),
        keyed(keys.push(k), vals.push(v)) == keyed(keys, vals).insert(k, v),
{
    let ks = keys.push(k);
    let vs = vals.push(v);
    assert forall|i: int, j: int| 0 <= i < ks.len() && 0 <= j < ks.len() && i != j implies ks[i] != ks[j] by {
        if i == keys.len() as int {
            assert(keys[j] == ks[j]);
        } else if j == keys.len() as int {
            assert(keys[i] == ks[i]);
        }
    }
    let a = keyed(ks, vs);
    let b = keyed(keys, vals).insert(k, v);
    assert forall|x: K| #[trigger] a.dom().contains(x) <==> b.dom().contains(x) by {
        if keys.contains(x) {
            let j = keys.index_of(x);
            assert(ks[j] == x);
        }
        if ks.contains(x) && x != k {
            let j = ks.index_of(x);
            assert(j != keys.len() as int);
            assert(keys[j] == x);
        }
        assert(ks[keys.len() as int] == k);
    }
    assert forall|x: K| a.contains_key(x) implies a[x] == b[x] by {
        let j = ks.index_of(x);
        assert(0 <= j < ks.len() && ks[j] == x);
        if x == k {
            if j != keys.len() as int {
                assert(keys[j] == k);
            }
        } else {
            assert(j != keys.len() as int);
            let m = keys.index_of(x);
            assert(keys.contains(x)) by { assert(keys[j] == x); }
            assert(0 <= m < keys.len() && keys[m] == x);
            assert(ks[m] == x);
            assert(m == j);
        }
    }
    assert(a.dom() =~= b.dom());
    assert(a =~= b);
}

/// A map with no entries is what an empty list reads as.
pub proof fn lemma_keyed_empty<K, V>()
    ensures
        keyed(Seq::<K>::empty(), Seq::<V>::empty()) == Map::<K, V>::empty(),
{
    assert(keyed(Seq::<K>::empty(), Seq::<V>::empty()) =~= Map::<K, V>::empty());
}

impl MetaDictionary {
    /// The classes, by identifier.
    pub closed spec fn class_map(&self) -> Map<Seq<u8>, ClassDef> {
        keyed(class_keys(self.classes@), self.classes@)
    }

    /// The types, by identifier.
    pub closed spec fn type_map(&self) -> Map<Seq<u8>, TypeDef> {
        keyed(type_keys(self.types@), self.types@)
    }

    /// The identifiers of the classes, by name.
    pub closed spec fn class_names(&self) -> Map<Seq<char>, Seq<u8>> {
        keyed(name_keys(self.classes_by_name@), name_targets(self.classes_by_name@))
    }

    /// The identifiers of the types, by name.
    pub closed spec fn type_names(&self) -> Map<Seq<char>, Seq<u8>> {
        keyed(name_keys(self.types_by_name@), name_targets(self.types_by_name@))
    }

    /// No table holds a key twice, and each class and type is kept under
    /// its own identifier.
    pub closed spec fn wf(&self) -> bool {
        &&& class_keys(self.classes@).no_duplicates()
        &&& type_keys(self.types@).no_duplicates()
        &&& name_keys(self.classes_by_name@).no_duplicates()
        &&& name_keys(self.types_by_name@).no_duplicates()
    }

    /// Each class is kept under its own identifier.
    proof fn lemma_class_keys(&self)
        requires
            self.wf(),
        ensures
            forall|k: Seq<u8>| #[trigger] self.class_map().contains_key(k) ==> self.class_map()[k].auid@ == k,
            self.class_map().dom().finite(),
            self.class_map().dom().len() == self.classes@.len(),
    {
        let keys = class_keys(self.classes@);
        assert forall|k: Seq<u8>| #[trigger] self.class_map().contains_key(k) implies self.class_map()[k].auid@ == k by {
            let j = keys.index_of(k);
            assert(0 <= j < keys.len() && keys[j] == k);
        }
        keys.unique_seq_to_set();
        assert(self.class_map().dom() =~= keys.to_set());
    }

    /// Each type is kept under its own identifier.
    proof fn lemma_type_keys(&self)
        requires
            self.wf(),
        ensures
            forall|k: Seq<u8>| #[trigger] self.type_map().contains_key(k) ==> self.type_map()[k].auid@ == k,
            self.type_map().dom().finite(),
            self.type_map().dom().len() == self.types@.len(),
    {
        let keys = type_keys(self.types@);
        assert forall|k: Seq<u8>| #[trigger] self.type_map().contains_key(k) implies self.type_map()[k].auid@ == k by {
            let j = keys.index_of(k);
            assert(0 <= j < keys.len() && keys[j] == k);
        }
        keys.unique_seq_to_set();
        assert(self.type_map().dom() =~= keys.to_set());
    }

    /// A dictionary with nothing in it.
    pub fn new() -> (r: Self)
        ensures
            r.wf(),
            r.class_map() == Map::<Seq<u8>, ClassDef>::empty(),
            r.type_map() == Map::<Seq<u8>, TypeDef>::empty(),
            r.class_names() == Map::<Seq<char>, Seq<u8>>::empty(),
            r.type_names() == Map::<Seq<char>, Seq<u8>>::empty(),
    {
        let r = Self { classes: Vec::new(), types: Vec::new(), classes_by_name: Vec::new(), types_by_name: Vec::new() };
        proof {
            assert(class_keys(r.classes@) =~= Seq::empty());
            assert(type_keys(r.types@) =~= Seq::empty());
            assert(name_keys(r.classes_by_name@) =~= Seq::empty());
            assert(name_targets(r.classes_by_name@) =~= Seq::empty());
            assert(name_keys(r.types_by_name@) =~= Seq::empty());
            assert(name_targets(r.types_by_name@) =~= Seq::empty());
            lemma_keyed_empty::<Seq<u8>, ClassDef>();
            lemma_keyed_empty::<Seq<u8>, TypeDef>();
            lemma_keyed_empty::<Seq<char>, Seq<u8>>();
        }
        r
    }

    /// Where the class with this identifier is kept, if it is here.
    fn class_index(&self, auid: &Auid) -> (r: Option<usize>)
        ensures
            r matches Some(i) ==> i < self.classes@.len() && self.classes@[i as int].auid@ == auid@,
            r is None ==> !class_keys(self.classes@).contains(auid@),
    {
        let mut i: usize = 0;
        while i < self.classes.len()
            invariant
                i <= self.classes@.len(),
                forall|j: int| 0 <= j < i ==> self.classes@[j].auid@ != auid@,
            decreases self.classes@.len() - i,
        {
            if self.classes[i].auid == *auid {
                return Some(i);
            }
            i = i + 1;
        }
        proof {
            let keys = class_keys(self.classes@);
            if keys.contains(auid@) {
                let j = choose|j: int| 0 <= j < keys.len() && keys[j] == auid@;
                assert(self.classes@[j].auid@ == auid@);
            }
        }
        None
    }

    /// Where the type with this identifier is kept, if it is here.
    fn type_index(&self, auid: &Auid) -> (r: Option<usize>)
        ensures
            r matches Some(i) ==> i < self.types@.len() && self.types@[i as int].auid@ == auid@,
            r is None ==> !type_keys(self.types@).contains(auid@),
    {
        let mut i: usize = 0;
        while i < self.types.len()
            invariant
                i <= self.types@.len(),
                forall|j: int| 0 <= j < i ==> self.types@[j].auid@ != auid@,
            decreases self.types@.len() - i,
        {
            if self.types[i].auid == *auid {
                return Some(i);
            }
            i = i + 1;
        }
        proof {
            let keys = type_keys(self.types@);
            if keys.contains(auid@) {
                let j = choose|j: int| 0 <= j < keys.len() && keys[j] == auid@;
                assert(self.types@[j].auid@ == auid@);
            }
        }
        None
    }
}

/// Where a name is kept in a list of name entries, if it is there.
fn name_index(names: &Vec<(String, Auid)>, name: &str) -> (r: Option<usize>)
    ensures
        r matches Some(i) ==> i < names@.len() && names@[i as int].0@ == name@,
        r is None ==> !name_keys(names@).contains(name@),
{
    let mut i: usize = 0;
    while i < names.len()
        invariant
            i <= names@.len(),
            forall|j: int| 0 <= j < i ==> names@[j].0@ != name@,
        decreases names@.len() - i,
    {
        if same_text(names[i].0.as_str(), name) {
            return Some(i);
        }
        i = i + 1;
    }
    proof {
        let keys = name_keys(names@);
        if keys.contains(name@) {
            let j = choose|j: int| 0 <= j < keys.len() && keys[j] == name@;
            assert(names@[j].0@ == name@);
        }
    }
    None
}

/// Records `name` as naming `auid`, replacing what it named before.
fn set_name(names: &mut Vec<(String, Auid)>, name: &str, auid: Auid)
    requires
        name_keys(old(names)@).no_duplicates(),
    ensures
        name_keys(final(names)@).no_duplicates(),
        keyed(name_keys(final(names)@), name_targets(final(names)@))
            == keyed(name_keys(old(names)@), name_targets(old(names)@)).insert(name@, auid@),
{
    let ghost ks = name_keys(names@);
    let ghost ts = name_targets(names@);
    match name_index(names, name) {
        Some(i) => {
            let entry = (name.to_owned(), auid);
            names.set(i, entry);
            proof {
                assert(name_keys(names@) =~= ks);
                assert(name_targets(names@) =~= ts.update(i as int, auid@));
                lemma_keyed_set(ks, ts, i as int, auid@);
            }
        },
        None => {
            names.push((name.to_owned(), auid));
            proof {
                assert(name_keys(names@) =~= ks.push(name@));
                assert(name_targets(names@) =~= ts.push(auid@));
                lemma_keyed_push(ks, ts, name@, auid@);
            }
        },
    }
}

impl MetaDictionary {
    /// Adds a type, replacing any of the same identifier, and makes its name
    /// find it.
    pub fn define_type(&mut self, type_def: TypeDef)
        requires
            old(self).wf(),
        ensures
            final(self).wf(),
            final(self).type_map() == old(self).type_map().insert(type_def.auid@, type_def),
            final(self).type_names() == old(self).type_names().insert(type_def.name@, type_def.auid@),
            final(self).class_map() == old(self).class_map(),
            final(self).class_names() == old(self).class_names(),
    {
        let ghost ks = type_keys(self.types@);
        let ghost vs = self.types@;
        let auid = type_def.auid;
        set_name(&mut self.types_by_name, type_def.name.as_str(), auid);
        match self.type_index(&auid) {
            Some(i) => {
                self.types.set(i, type_def);
                proof {
                    assert(type_keys(self.types@) =~= ks);
                    lemma_keyed_set(ks, vs, i as int, type_def);
                }
            },
            None => {
                self.types.push(type_def);
                proof {
                    assert(type_keys(self.types@) =~= ks.push(auid@));
                    lemma_keyed_push(ks, vs, auid@, type_def);
                }
            },
        }
    }

    /// Adds a class, replacing any of the same identifier, and makes its name
    /// find it.
    pub fn define_class(&mut self, class: ClassDef)
        requires
            old(self).wf(),
        ensures
            final(self).wf(),
            final(self).class_map() == old(self).class_map().insert(class.auid@, class),
            final(self).class_names() == old(self).class_names().insert(class.name@, class.auid@),
            final(self).type_map() == old(self).type_map(),
            final(self).type_names() == old(self).type_names(),
    {
        let ghost ks = class_keys(self.classes@);
        let ghost vs = self.classes@;
        let auid = class.auid;
        set_name(&mut self.classes_by_name, class.name.as_str(), auid);
        match self.class_index(&auid) {
            Some(i) => {
                self.classes.set(i, class);
                proof {
                    assert(class_keys(self.classes@) =~= ks);
                    lemma_keyed_set(ks, vs, i as int, class);
                }
            },
            None => {
                self.classes.push(class);
                proof {
                    assert(class_keys(self.classes@) =~= ks.push(auid@));
                    lemma_keyed_push(ks, vs, auid@, class);
                }
            },
        }
    }

    /// Makes a second name find the class with this identifier.
    pub fn alias_class(&mut self, alias: &str, auid: Auid)
        requires
            old(self).wf(),
        ensures
            final(self).wf(),
            final(self).class_names() == old(self).class_names().insert(alias@, auid@),
            final(self).class_map() == old(self).class_map(),
            final(self).type_map() == old(self).type_map(),
            final(self).type_names() == old(self).type_names(),
    {
        set_name(&mut self.classes_by_name, alias, auid);
    }

    /// How many classes the dictionary defines.
    pub fn class_count(&self) -> (r: usize)
        requires
            self.wf(),
        ensures
            r == self.class_map().dom().len(),
    {
        proof { self.lemma_class_keys(); }
        self.classes.len()
    }

    /// How many types the dictionary defines.
    pub fn type_count(&self) -> (r: usize)
        requires
            self.wf(),
        ensures
            r == self.type_map().dom().len(),
    {
        proof { self.lemma_type_keys(); }
        self.types.len()
    }

    /// Every class, in no particular order.
    pub fn classes(&self) -> (r: Vec<&ClassDef>)
        requires
            self.wf(),
        ensures
            r@.len() == self.class_map().dom().len(),
            forall|i: int| 0 <= i < r@.len() ==> self.class_map().contains_key(r@[i].auid@)
                && self.class_map()[r@[i].auid@] == *r@[i],
            forall|i: int, j: int| 0 <= i < j < r@.len() ==> r@[i].auid@ != r@[j].auid@,
    {
        proof { self.lemma_class_keys(); }
        let mut out: Vec<&ClassDef> = Vec::new();
        let mut i: usize = 0;
        while i < self.classes.len()
            invariant
                self.wf(),
                i <= self.classes@.len(),
                out@.len() == i,
                forall|j: int| 0 <= j < i ==> *out@[j] == self.classes@[j],
            decreases self.classes@.len() - i,
        {
            out.push(&self.classes[i]);
            i = i + 1;
        }
        proof {
            let keys = class_keys(self.classes@);
            assert forall|j: int| 0 <= j < out@.len() implies self.class_map().contains_key(out@[j].auid@)
                && self.class_map()[out@[j].auid@] == *out@[j] by {
                assert(keys[j] == self.classes@[j].auid@);
                lemma_keyed_at(keys, self.classes@, j);
            }
            assert forall|a: int, b: int| 0 <= a < b < out@.len() implies out@[a].auid@ != out@[b].auid@ by {
                assert(keys[a] == self.classes@[a].auid@ && keys[b] == self.classes@[b].auid@);
            }
        }
        out
    }

    /// Every type, in no particular order.
    pub fn types(&self) -> (r: Vec<&TypeDef>)
        requires
            self.wf(),
        ensures
            r@.len() == self.type_map().dom().len(),
            forall|i: int| 0 <= i < r@.len() ==> self.type_map().contains_key(r@[i].auid@)
                && self.type_map()[r@[i].auid@] == *r@[i],
            forall|i: int, j: int| 0 <= i < j < r@.len() ==> r@[i].auid@ != r@[j].auid@,
    {
        proof { self.lemma_type_keys(); }
        let mut out: Vec<&TypeDef> = Vec::new();
        let mut i: usize = 0;
        while i < self.types.len()
            invariant
                self.wf(),
                i <= self.types@.len(),
                out@.len() == i,
                forall|j: int| 0 <= j < i ==> *out@[j] == self.types@[j],
            decreases self.types@.len() - i,
        {
            out.push(&self.types[i]);
            i = i + 1;
        }
        proof {
            let keys = type_keys(self.types@);
            assert forall|j: int| 0 <= j < out@.len() implies self.type_map().contains_key(out@[j].auid@)
                && self.type_map()[out@[j].auid@] == *out@[j] by {
                assert(keys[j] == self.types@[j].auid@);
                lemma_keyed_at(keys, self.types@, j);
            }
            assert forall|a: int, b: int| 0 <= a < b < out@.len() implies out@[a].auid@ != out@[b].auid@ by {
                assert(keys[a] == self.types@[a].auid@ && keys[b] == self.types@[b].auid@);
            }
        }
        out
    }

    /// The class with this identifier.
    pub fn class(&self, auid: Auid) -> (r: Option<&ClassDef>)
        requires
            self.wf(),
        ensures
            r == (if self.class_map().contains_key(auid@) { Some(&self.class_map()[auid@]) } else { None::<&ClassDef> }),
    {
        match self.class_index(&auid) {
            Some(i) => {
                proof { lemma_keyed_at(class_keys(self.classes@), self.classes@, i as int); }
                Some(&self.classes[i])
            },
            None => None,
        }
    }

    /// Whether every integer type the dictionary defines is at most eight
    /// bytes wide, which decoding a value needs.
    pub fn integers_fit(&self) -> (r: bool)
        requires
            self.wf(),
        ensures
            r == ints_fit(self.type_map()),
    {
        let ghost keys = type_keys(self.types@);
        let mut i: usize = 0;
        while i < self.types.len()
            invariant
                self.wf(),
                keys == type_keys(self.types@),
                i <= self.types@.len(),
                forall|j: int| 0 <= j < i ==> ((#[trigger] self.types@[j]).kind matches TypeKind::Int { size, .. } ==> size <= 8),
            decreases self.types@.len() - i,
        {
            match &self.types[i].kind {
                TypeKind::Int { size, .. } => {
                    if *size > 8 {
                        proof {
                            lemma_keyed_at(keys, self.types@, i as int);
                            assert(self.type_map().contains_key(keys[i as int]));
                        }
                        return false;
                    }
                },
                _ => {},
            }
            i = i + 1;
        }
        proof {
            assert forall|k: Seq<u8>| #[trigger] self.type_map().contains_key(k) implies
                (self.type_map()[k].kind matches TypeKind::Int { size, .. } ==> size <= 8) by {
                let j = keys.index_of(k);
                lemma_keyed_at(keys, self.types@, j);
            }
        }
        true
    }

    /// The type with this identifier.
    pub fn type_def(&self, auid: Auid) -> (r: Option<&TypeDef>)
        requires
            self.wf(),
        ensures
            r == (if self.type_map().contains_key(auid@) { Some(&self.type_map()[auid@]) } else { None::<&TypeDef> }),
    {
        match self.type_index(&auid) {
            Some(i) => {
                proof { lemma_keyed_at(type_keys(self.types@), self.types@, i as int); }
                Some(&self.types[i])
            },
            None => None,
        }
    }

    /// The class with this name.
    pub fn class_named(&self, name: &str) -> (r: Option<&ClassDef>)
        requires
            self.wf(),
        ensures
            r == (if self.class_names().contains_key(name@) && self.class_map().contains_key(self.class_names()[name@]) {
                Some(&self.class_map()[self.class_names()[name@]])
            } else {
                None::<&ClassDef>
            }),
    {
        match name_index(&self.classes_by_name, name) {
            Some(i) => {
                proof {
                    lemma_keyed_at(name_keys(self.classes_by_name@), name_targets(self.classes_by_name@), i as int);
                }
                self.class(self.classes_by_name[i].1)
            },
            None => None,
        }
    }

    /// The type with this name.
    pub fn type_named(&self, name: &str) -> (r: Option<&TypeDef>)
        requires
            self.wf(),
        ensures
            r == (if self.type_names().contains_key(name@) && self.type_map().contains_key(self.type_names()[name@]) {
                Some(&self.type_map()[self.type_names()[name@]])
            } else {
                None::<&TypeDef>
            }),
    {
        match name_index(&self.types_by_name, name) {
            Some(i) => {
                proof {
                    lemma_keyed_at(name_keys(self.types_by_name@), name_targets(self.types_by_name@), i as int);
                }
                self.type_def(self.types_by_name[i].1)
            },
            None => None,
        }
    }
}

/// The classes a list of references points at.
pub open spec fn class_values(s: Seq<&ClassDef>) -> Seq<ClassDef> {
    s.map_values(|c: &ClassDef| *c)
}

/// The properties a list of references points at.
pub open spec fn prop_values(s: Seq<&PropertyDef>) -> Seq<PropertyDef> {
    s.map_values(|p: &PropertyDef| *p)
}

/// The classes met walking up from `id` through parents, at most `fuel` of
/// them: the class itself first, and its ancestors after it up to the root
/// class, which is its own parent.
pub open spec fn chain_from(classes: Map<Seq<u8>, ClassDef>, id: Seq<u8>, fuel: nat) -> Seq<ClassDef>
    decreases fuel,
{
    if fuel == 0 || !classes.contains_key(id) {
        Seq::empty()
    } else {
        let c = classes[id];
        if c.parent@ == c.auid@ {
            seq![c]
        } else {
            seq![c] + chain_from(classes, c.parent@, (fuel - 1) as nat)
        }
    }
}

/// The properties of a chain of classes, ancestors' first and the first
/// class's own last.
pub open spec fn inherited(chain: Seq<ClassDef>) -> Seq<PropertyDef>
    decreases chain.len(),
{
    if chain.len() == 0 {
        Seq::empty()
    } else {
        inherited(chain.drop_first()) + chain[0].properties@
    }
}

/// The first of `props` with this pid.
pub open spec fn first_with_pid(props: Seq<PropertyDef>, pid: u16) -> Option<PropertyDef>
    decreases props.len(),
{
    if props.len() == 0 {
        None
    } else if props[0].pid == pid {
        Some(props[0])
    } else {
        first_with_pid(props.drop_first(), pid)
    }
}

/// The property with this pid on the first class of the chain that has one.
pub open spec fn found_in_chain(chain: Seq<ClassDef>, pid: u16) -> Option<PropertyDef>
    decreases chain.len(),
{
    if chain.len() == 0 {
        None
    } else {
        match first_with_pid(chain[0].properties@, pid) {
            Some(p) => Some(p),
            None => found_in_chain(chain.drop_first(), pid),
        }
    }
}

/// The first of `props` that is a unique key.
pub open spec fn first_unique(props: Seq<PropertyDef>) -> Option<PropertyDef>
    decreases props.len(),
{
    if props.len() == 0 {
        None
    } else if props[0].unique {
        Some(props[0])
    } else {
        first_unique(props.drop_first())
    }
}

/// Inheriting one class more puts its ancestors' properties first.
proof fn lemma_inherited_append(chain: Seq<ClassDef>, c: ClassDef)
    ensures
        inherited(chain.push(c)) == c.properties@ + inherited(chain),
    decreases chain.len(),
{
    if chain.len() == 0 {
        assert(seq![c].drop_first() =~= Seq::<ClassDef>::empty());
        assert(inherited(seq![c].drop_first()) =~= Seq::<PropertyDef>::empty());
        assert(inherited(seq![c]) =~= c.properties@);
        assert(chain.push(c) =~= seq![c]);
    } else {
        assert(chain.push(c).drop_first() =~= chain.drop_first().push(c));
        lemma_inherited_append(chain.drop_first(), c);
        assert(inherited(chain.push(c)) =~= c.properties@ + inherited(chain.drop_first()) + chain[0].properties@);
    }
}

/// Searching a chain one class longer goes on past the classes before it.
proof fn lemma_found_append(chain: Seq<ClassDef>, rest: Seq<ClassDef>, pid: u16)
    requires
        forall|i: int| 0 <= i < chain.len() ==> first_with_pid(#[trigger] chain[i].properties@, pid) is None,
    ensures
        found_in_chain(chain + rest, pid) == found_in_chain(rest, pid),
    decreases chain.len(),
{
    if chain.len() > 0 {
        assert((chain + rest).drop_first() =~= chain.drop_first() + rest);
        assert((chain + rest)[0] == chain[0]);
        lemma_found_append(chain.drop_first(), rest, pid);
    } else {
        assert(chain + rest =~= rest);
    }
}

/// The first property of `props` with this pid, if there is one.
fn find_pid(props: &Vec<PropertyDef>, pid: u16) -> (r: Option<&PropertyDef>)
    ensures
        r == (match first_with_pid(props@, pid) { Some(p) => Some(&p), None => None::<&PropertyDef> }),
{
    let mut i: usize = 0;
    assert(props@.skip(0) =~= props@);
    while i < props.len()
        invariant
            i <= props@.len(),
            first_with_pid(props@, pid) == first_with_pid(props@.skip(i as int), pid),
        decreases props@.len() - i,
    {
        assert(props@.skip(i as int)[0] == props@[i as int]);
        if props[i].pid == pid {
            return Some(&props[i]);
        }
        assert(props@.skip(i as int).drop_first() =~= props@.skip(i + 1));
        i = i + 1;
    }
    None
}

impl MetaDictionary {
    /// The class this one inherits from, or `None` for the root class.
    ///
    /// The root class is recorded as its own parent, which this reports as no
    /// parent rather than as a loop.
    pub fn parent(&self, class: &ClassDef) -> (r: Option<&ClassDef>)
        requires
            self.wf(),
        ensures
            r == (if class.parent@ == class.auid@ || !self.class_map().contains_key(class.parent@) {
                None::<&ClassDef>
            } else {
                Some(&self.class_map()[class.parent@])
            }),
    {
        if class.parent == class.auid {
            return None;
        }
        self.class(class.parent)
    }

    /// The classes from this one up to the root of its inheritance chain,
    /// giving up after one more than there are classes.
    pub(crate) fn chain(&self, class_id: Auid) -> (r: Vec<&ClassDef>)
        requires
            self.wf(),
        ensures
            class_values(r@) == chain_from(self.class_map(), class_id@, (self.class_map().dom().len() + 1) as nat),
    {
        proof { self.lemma_class_keys(); }
        let n = self.classes.len();
        let ghost m = self.class_map();
        let ghost full = chain_from(m, class_id@, (n + 1) as nat);
        let mut chain: Vec<&ClassDef> = Vec::new();
        let mut current = self.class(class_id);
        let ghost mut key = class_id@;
        let ghost mut fuel: nat = (n + 1) as nat;
        let ghost mut rest = full;
        while current.is_some() && chain.len() <= n
            invariant
                self.wf(),
                m == self.class_map(),
                n == m.dom().len(),
                forall|k: Seq<u8>| #[trigger] m.contains_key(k) ==> m[k].auid@ == k,
                chain@.len() + fuel == n + 1,
                class_values(chain@) + rest == full,
                current matches Some(c) ==> m.contains_key(key) && *c == m[key] && rest == chain_from(m, key, fuel),
                current is None ==> rest == Seq::<ClassDef>::empty(),
            decreases fuel,
        {
            let class = current.unwrap();
            let ghost before = class_values(chain@);
            chain.push(class);
            proof {
                assert(class_values(chain@) =~= before.push(*class));
                assert(fuel > 0);
            }
            if class.parent == class.auid {
                current = None;
                proof {
                    assert(rest =~= seq![*class]);
                    fuel = (fuel - 1) as nat;
                    rest = Seq::empty();
                    assert(before.push(*class) + rest =~= before + seq![*class]);
                }
            } else {
                current = self.class(class.parent);
                proof {
                    assert(rest =~= seq![*class] + chain_from(m, class.parent@, (fuel - 1) as nat));
                    fuel = (fuel - 1) as nat;
                    key = class.parent@;
                    rest = chain_from(m, key, fuel);
                    assert(before.push(*class) + rest =~= before + (seq![*class] + rest));
                }
            }
        }
        proof {
            if current.is_some() {
                assert(fuel == 0);
                assert(rest == chain_from(m, key, 0));
            }
            assert(class_values(chain@) + rest =~= class_values(chain@));
        }
        chain
    }
}

impl MetaDictionary {
    /// The classes an object of this class is an instance of, from the
    /// class itself up: at most one more than there are classes, so a class
    /// that is its own ancestor does not walk forever.
    pub open spec fn lineage(&self, class_id: Seq<u8>) -> Seq<ClassDef> {
        chain_from(self.class_map(), class_id, (self.class_map().dom().len() + 1) as nat)
    }

    /// Every property an object of this class can have, its own and inherited.
    ///
    /// Ordered from the root of the inheritance chain down, so a class's own
    /// properties come last. An unknown class has none.
    pub fn all_properties(&self, class_id: Auid) -> (r: Vec<&PropertyDef>)
        requires
            self.wf(),
        ensures
            prop_values(r@) == inherited(self.lineage(class_id@)),
    {
        let chain = self.chain(class_id);
        let ghost cv = class_values(chain@);
        let mut out: Vec<&PropertyDef> = Vec::new();
        let mut k = chain.len();
        assert(cv.subrange(k as int, k as int) =~= Seq::<ClassDef>::empty());
        assert(prop_values(out@) =~= Seq::<PropertyDef>::empty());
        while k > 0
            invariant
                k <= chain@.len(),
                cv == class_values(chain@),
                prop_values(out@) == inherited(cv.subrange(k as int, chain@.len() as int)),
            decreases k,
        {
            k = k - 1;
            let props = &chain[k].properties;
            let ghost base = prop_values(out@);
            let mut j: usize = 0;
            while j < props.len()
                invariant
                    j <= props@.len(),
                    prop_values(out@) == base + props@.subrange(0, j as int),
                decreases props@.len() - j,
            {
                let ghost prev = prop_values(out@);
                out.push(&props[j]);
                assert(prop_values(out@) =~= prev.push(props@[j as int]));
                assert(props@.subrange(0, j + 1) =~= props@.subrange(0, j as int).push(props@[j as int]));
                j = j + 1;
            }
            proof {
                let tail = cv.subrange(k as int, chain@.len() as int);
                assert(tail.drop_first() =~= cv.subrange(k + 1, chain@.len() as int));
                assert(tail[0] == cv[k as int]);
                assert(props@.subrange(0, props@.len() as int) =~= props@);
            }
        }
        assert(cv.subrange(0, chain@.len() as int) =~= cv);
        out
    }

    /// The definition of one property of a class, its own or inherited: the
    /// first with this pid on the nearest class of the lineage that has one.
    pub fn property(&self, class_id: Auid, pid: u16) -> (r: Option<&PropertyDef>)
        requires
            self.wf(),
        ensures
            r == (match found_in_chain(self.lineage(class_id@), pid) { Some(p) => Some(&p), None => None::<&PropertyDef> }),
    {
        let chain = self.chain(class_id);
        let ghost cv = class_values(chain@);
        let mut k: usize = 0;
        assert(cv.subrange(0, 0) + cv =~= cv);
        while k < chain.len()
            invariant
                k <= chain@.len(),
                cv == class_values(chain@),
                cv == self.lineage(class_id@),
                forall|i: int| 0 <= i < k ==> first_with_pid(#[trigger] cv[i].properties@, pid) is None,
            decreases chain@.len() - k,
        {
            match find_pid(&chain[k].properties, pid) {
                Some(p) => {
                    proof {
                        lemma_found_append(cv.subrange(0, k as int), cv.subrange(k as int, cv.len() as int), pid);
                        assert(cv.subrange(0, k as int) + cv.subrange(k as int, cv.len() as int) =~= cv);
                        let rest = cv.subrange(k as int, cv.len() as int);
                        assert(rest[0] == cv[k as int]);
                        assert(cv[k as int] == *chain@[k as int]);
                        assert(first_with_pid(rest[0].properties@, pid) == Some(*p));
                        assert(found_in_chain(rest, pid) == Some(*p));
                    }
                    return Some(p);
                },
                None => {},
            }
            k = k + 1;
        }
        proof {
            lemma_found_append(cv, Seq::empty(), pid);
            assert(cv + Seq::<ClassDef>::empty() =~= cv);
        }
        None
    }

    /// The pid of the property that is a class's unique key, if it has one:
    /// the first unique one of [`all_properties`](Self::all_properties).
    ///
    /// Sets of objects are keyed by this property's value.
    pub fn unique_key_pid(&self, class_id: Auid) -> (r: Option<u16>)
        requires
            self.wf(),
        ensures
            r == (match first_unique(inherited(self.lineage(class_id@))) { Some(p) => Some(p.pid), None => None::<u16> }),
    {
        let all = self.all_properties(class_id);
        let ghost pv = prop_values(all@);
        let mut i: usize = 0;
        assert(pv.skip(0) =~= pv);
        while i < all.len()
            invariant
                i <= all@.len(),
                pv == prop_values(all@),
                pv == inherited(self.lineage(class_id@)),
                first_unique(pv) == first_unique(pv.skip(i as int)),
            decreases all@.len() - i,
        {
            assert(pv.skip(i as int)[0] == pv[i as int]);
            assert(pv[i as int] == *all@[i as int]);
            if all[i].unique {
                return Some(all[i].pid);
            }
            assert(pv.skip(i as int).drop_first() =~= pv.skip(i + 1));
            i = i + 1;
        }
        None
    }
}

/// The class identifier of one of the definition classes:
/// `0d010101-xxxx-0000-060e-2b3402060101`, with `kind` in the second group.
fn meta_class(kind: u16) -> (r: Auid)
    ensures
        r@ == seq![0x01u8, 0x01, 0x01, 0x0d, (kind % 256) as u8, (kind / 256) as u8, 0, 0, 0x06, 0x0e, 0x2b, 0x34, 0x02, 0x06, 0x01, 0x01],
{
    let lo = (kind % 256) as u8;
    let hi = (kind / 256) as u8;
    let b = [0x01u8, 0x01, 0x01, 0x0d, lo, hi, 0, 0, 0x06, 0x0e, 0x2b, 0x34, 0x02, 0x06, 0x01, 0x01];
    assert(b@ =~= seq![0x01u8, 0x01, 0x01, 0x0d, lo, hi, 0, 0, 0x06, 0x0e, 0x2b, 0x34, 0x02, 0x06, 0x01, 0x01]);
    Auid::from_bytes_le(b)
}

/// The first of `ps` with this pid.
pub open spec fn first_prop(ps: Seq<Property>, pid: u16) -> Option<Property>
    decreases ps.len(),
{
    if ps.len() == 0 {
        None
    } else if ps[0].pid == pid {
        Some(ps[0])
    } else {
        first_prop(ps.drop_first(), pid)
    }
}

/// The entry found first is the first with that pid.
pub(crate) proof fn lemma_first_prop(ps: Seq<Property>, pid: u16, i: int)
    requires
        0 <= i <= ps.len(),
        forall|j: int| 0 <= j < i ==> (#[trigger] ps[j]).pid != pid,
        i < ps.len() ==> ps[i].pid == pid,
    ensures
        first_prop(ps, pid) == (if i < ps.len() { Some(ps[i]) } else { None::<Property> }),
    decreases i,
{
    if i > 0 {
        assert forall|j: int| 0 <= j < i - 1 implies (#[trigger] ps.drop_first()[j]).pid != pid by {
            assert(ps.drop_first()[j] == ps[j + 1]);
        }
        lemma_first_prop(ps.drop_first(), pid, i - 1);
        if i < ps.len() {
            assert(ps.drop_first()[i - 1] == ps[i]);
        }
    }
}

/// The inline bytes of an object's property with this pid, if it is data.
pub open spec fn data_spec(o: Object, pid: u16) -> Option<Seq<u8>> {
    match first_prop(o.stream_spec().properties@, pid) {
        Some(p) => match p.value {
            PropertyValue::Data(d) => Some(d@),
            _ => None,
        },
        None => None,
    }
}

/// The first byte of a property's inline bytes, if it has one.
pub open spec fn byte_of(o: Object, pid: u16) -> Option<u8> {
    match data_spec(o, pid) {
        Some(d) => if d.len() > 0 { Some(d[0]) } else { None },
        None => None,
    }
}

/// The little-endian `u16` a property's inline bytes start with.
pub open spec fn u16_of(o: Object, pid: u16) -> Option<u16> {
    match data_spec(o, pid) {
        Some(d) => if d.len() >= 2 { Some(le16(d, 0) as u16) } else { None },
        None => None,
    }
}

/// The little-endian `u32` a property's inline bytes start with.
pub open spec fn u32_of(o: Object, pid: u16) -> Option<u32> {
    match data_spec(o, pid) {
        Some(d) => if d.len() >= 4 { Some(le32(d, 0) as u32) } else { None },
        None => None,
    }
}

/// Whether a boolean property is set: its first byte is 1.
pub open spec fn bool_of(o: Object, pid: u16) -> bool {
    data_spec(o, pid) matches Some(d) && d.len() > 0 && d[0] == 1
}

/// Whether a property holds exactly the 16 bytes of an AUID inline.
pub open spec fn holds_auid(o: Object, pid: u16) -> bool {
    data_spec(o, pid) matches Some(d) && d.len() == 16
}

/// The AUID a weak reference property names: its key where that is an
/// AUID, or the 16 bytes stored inline instead.
pub open spec fn weak_target_of(o: Object, pid: u16) -> Option<Seq<u8>> {
    match first_prop(o.stream_spec().properties@, pid) {
        Some(p) => match p.value {
            PropertyValue::WeakRef { key, .. } => match key {
                RefKey::Auid(id) => Some(id@),
                RefKey::MobId(_) => None,
            },
            PropertyValue::Data(b) => if b@.len() == 16 { Some(b@) } else { None },
            _ => None,
        },
        None => None,
    }
}

/// The NUL-terminated UTF-16 strings a property holds inline.
pub open spec fn strings_of(o: Object, pid: u16) -> Seq<Seq<char>> {
    match data_spec(o, pid) {
        Some(d) => utf16_strings_of(d),
        None => Seq::empty(),
    }
}

/// AUIDs stored back to back, a trailing partial one left out.
pub open spec fn auids_in(d: Seq<u8>) -> Seq<Seq<u8>> {
    Seq::new(d.len() / 16, |i: int| d.subrange(16 * i, 16 * i + 16))
}

/// The AUIDs a property holds inline.
pub open spec fn auids_of(o: Object, pid: u16) -> Seq<Seq<u8>> {
    match data_spec(o, pid) {
        Some(d) => auids_in(d),
        None => Seq::empty(),
    }
}

/// A little-endian 64-bit value read as signed.
pub open spec fn signed64(raw: int) -> i64 {
    if raw <= i64::MAX { raw as i64 } else { (raw - 0x1_0000_0000_0000_0000) as i64 }
}

/// The inline bytes of a property, or none.
pub open spec fn bytes_of(o: Object, pid: u16) -> Seq<u8> {
    match data_spec(o, pid) {
        Some(d) => d,
        None => Seq::empty(),
    }
}

/// The smaller of two lengths.
pub open spec fn shorter(a: int, b: int) -> int {
    if a < b { a } else { b }
}

/// The AUIDs views of a list.
pub open spec fn auid_views(s: Seq<Auid>) -> Seq<Seq<u8>> {
    s.map_values(|a: Auid| a@)
}

/// A property's inline bytes, if it has any.
fn data(object: &Object, pid: u16) -> (r: Option<&Vec<u8>>)
    ensures
        match r { Some(d) => Some(d@), None => None::<Seq<u8>> } == data_spec(*object, pid),
{
    let found = object.get(pid);
    proof {
        let ps = object.stream_spec().properties@;
        if let Some(p) = found {
            let i = choose|i: int| 0 <= i < ps.len() && *p == ps[i] && p.pid == pid
                && forall|j: int| 0 <= j < i ==> (#[trigger] ps[j]).pid != pid;
            lemma_first_prop(ps, pid, i);
        } else {
            lemma_first_prop(ps, pid, ps.len() as int);
        }
    }
    match found {
        Some(p) => match &p.value {
            PropertyValue::Data(bytes) => Some(bytes),
            _ => None,
        },
        None => None,
    }
}

/// A UTF-16 string property of a definition.
fn string(object: &Object, pid: u16) -> (r: Result<String>)
    ensures
        r matches Ok(s) ==> data_spec(*object, pid) matches Some(d) && s@ == crate::utf16::utf16_text(d),
        r is Ok <==> data_spec(*object, pid) is Some,
        r matches Err(e) ==> e matches Error::MissingDefinitionProperty { pid: p, .. } && p == pid,
{
    match data(object, pid) {
        Some(d) => Ok(decode_le(d.as_slice())),
        None => {
            let mut definition = String::new();
            push_str(&mut definition, "a definition of class ");
            push_str(&mut definition, object.class_id().to_string().as_str());
            Err(Error::MissingDefinitionProperty { definition, pid })
        },
    }
}

/// An AUID a definition stores inline.
fn inline_auid(object: &Object, pid: u16, definition: &str) -> (r: Result<Auid>)
    ensures
        r matches Ok(a) ==> data_spec(*object, pid) == Some(a@) && a@.len() == 16,
        r is Ok <==> holds_auid(*object, pid),
        r matches Err(e) ==> e matches Error::MissingDefinitionProperty { definition: n, pid: p } && n@ == definition@ && p == pid,
{
    match data(object, pid) {
        Some(d) => {
            if d.len() == 16 {
                let a = Auid::from_bytes_le(array16(d.as_slice(), 0));
                assert(d@.subrange(0, 16) =~= d@);
                return Ok(a);
            }
        },
        None => {},
    }
    Err(Error::MissingDefinitionProperty { definition: definition.to_owned(), pid })
}

/// The target of a weak reference property: definitions refer to each
/// other by weak reference, and the key is the target's own AUID. Some
/// writers store the target inline instead.
fn weak_ref_auid(object: &Object, pid: u16) -> (r: Option<Auid>)
    ensures
        match r { Some(a) => Some(a@), None => None::<Seq<u8>> } == weak_target_of(*object, pid),
{
    let found = object.get(pid);
    proof {
        let ps = object.stream_spec().properties@;
        if let Some(p) = found {
            let i = choose|i: int| 0 <= i < ps.len() && *p == ps[i] && p.pid == pid
                && forall|j: int| 0 <= j < i ==> (#[trigger] ps[j]).pid != pid;
            lemma_first_prop(ps, pid, i);
        } else {
            lemma_first_prop(ps, pid, ps.len() as int);
        }
    }
    match found {
        Some(p) => match &p.value {
            PropertyValue::WeakRef { key, .. } => match key {
                RefKey::Auid(id) => Some(*id),
                RefKey::MobId(_) => None,
            },
            PropertyValue::Data(bytes) => {
                if bytes.len() == 16 {
                    assert(bytes@.subrange(0, 16) =~= bytes@);
                    Some(Auid::from_bytes_le(array16(bytes.as_slice(), 0)))
                } else {
                    None
                }
            },
            _ => None,
        },
        None => None,
    }
}

/// A boolean property; a missing one reads as false.
fn boolean(object: &Object, pid: u16) -> (r: bool)
    ensures
        r == bool_of(*object, pid),
{
    match data(object, pid) {
        Some(d) => d.len() > 0 && d[0] == 1,
        None => false,
    }
}

/// The first byte of a property.
fn byte(object: &Object, pid: u16) -> (r: Option<u8>)
    ensures
        r == byte_of(*object, pid),
{
    match data(object, pid) {
        Some(d) => if d.len() > 0 { Some(d[0]) } else { None },
        None => None,
    }
}

/// The little-endian `u16` a property starts with.
fn u16_value(object: &Object, pid: u16) -> (r: Option<u16>)
    ensures
        r == u16_of(*object, pid),
{
    match data(object, pid) {
        Some(d) => if d.len() >= 2 { Some(read_u16(d.as_slice(), 0)) } else { None },
        None => None,
    }
}

/// The little-endian `u32` a property starts with.
fn u32_value(object: &Object, pid: u16) -> (r: Option<u32>)
    ensures
        r == u32_of(*object, pid),
{
    match data(object, pid) {
        Some(d) => if d.len() >= 4 { Some(read_u32(d.as_slice(), 0)) } else { None },
        None => None,
    }
}

/// A run of NUL-terminated UTF-16 strings stored one after another.
fn utf16_array(object: &Object, pid: u16) -> (r: Vec<String>)
    ensures
        texts(r@) == strings_of(*object, pid),
{
    match data(object, pid) {
        Some(d) => utf16_strings(d.as_slice()),
        None => {
            let v: Vec<String> = Vec::new();
            assert(texts(v@) =~= Seq::<Seq<char>>::empty());
            v
        },
    }
}

/// AUIDs stored back to back; a trailing partial one is left out.
fn parse_auid_array(bytes: &[u8]) -> (r: Vec<Auid>)
    ensures
        r@.len() == bytes@.len() / 16,
        forall|i: int| 0 <= i < r@.len() ==> (#[trigger] r@[i])@ == bytes@.subrange(16 * i, 16 * i + 16),
{
    let n = bytes.len() / 16;
    let mut out: Vec<Auid> = Vec::new();
    let mut i: usize = 0;
    while i < n
        invariant
            n == bytes@.len() / 16,
            i <= n,
            out@.len() == i,
            forall|j: int| 0 <= j < i ==> (#[trigger] out@[j])@ == bytes@.subrange(16 * j, 16 * j + 16),
        decreases n - i,
    {
        assert(16 * i + 16 <= bytes@.len()) by (nonlinear_arith)
            requires i < n, n == bytes@.len() / 16;
        assert(bytes@.len() == bytes.len());
        out.push(Auid::from_bytes_le(array16(bytes, 16 * i)));
        i = i + 1;
    }
    out
}

/// An AUID array property.
fn auid_array(object: &Object, pid: u16) -> (r: Vec<Auid>)
    ensures
        auid_views(r@) == auids_of(*object, pid),
{
    match data(object, pid) {
        Some(d) => {
            let v = parse_auid_array(d.as_slice());
            assert(auid_views(v@) =~= auids_in(d@));
            v
        },
        None => {
            let v: Vec<Auid> = Vec::new();
            assert(auid_views(v@) =~= Seq::<Seq<u8>>::empty());
            v
        },
    }
}

/// An enumeration's elements: names inline, values always stored as signed
/// 64-bit integers, paired in order as far as both go.
fn enum_elements(object: &Object) -> (r: Vec<(i64, String)>)
    ensures
        enum_read(*object, r@),
        r@.len() == shorter((bytes_of(*object, 0x0016).len() / 8) as int, strings_of(*object, 0x0015).len() as int),
        forall|i: int| 0 <= i < r@.len() ==> (#[trigger] r@[i]).0 == signed64(le64(bytes_of(*object, 0x0016), 8 * i))
            && r@[i].1@ == strings_of(*object, 0x0015)[i],
{
    let mut names = utf16_array(object, 0x0015);
    let ghost all = texts(names@);
    let empty: Vec<u8> = Vec::new();
    let values = match data(object, 0x0016) {
        Some(d) => d,
        None => &empty,
    };
    assert(values@ == bytes_of(*object, 0x0016));
    let count = values.len() / 8;
    let mut out: Vec<(i64, String)> = Vec::new();
    let mut i: usize = 0;
    assert(all.skip(0) =~= all);
    while i < count && names.len() > 0
        invariant
            count == values@.len() / 8,
            values@ == bytes_of(*object, 0x0016),
            all == strings_of(*object, 0x0015),
            i <= count,
            i <= all.len(),
            texts(names@) == all.skip(i as int),
            out@.len() == i,
            forall|j: int| 0 <= j < i ==> (#[trigger] out@[j]).0 == signed64(le64(values@, 8 * j))
                && out@[j].1@ == all[j],
        decreases count - i,
    {
        assert(8 * i + 8 <= values@.len()) by (nonlinear_arith)
            requires i < count, count == values@.len() / 8;
        assert(values@.len() == values.len());
        let raw = read_u64(values.as_slice(), 8 * i);
        let ghost before = names@;
        let name = names.remove(0);
        proof {
            assert(texts(before)[0] == name@);
            assert(texts(names@) =~= texts(before).drop_first());
            assert(all.skip(i as int)[0] == all[i as int]);
            assert(all.skip(i as int).drop_first() =~= all.skip(i + 1));
        }
        let value: i64 = if raw <= 0x7fff_ffff_ffff_ffff {
            raw as i64
        } else {
            -((0xffff_ffff_ffff_ffff - raw) as i64) - 1
        };
        out.push((value, name));
        i = i + 1;
    }
    proof {
        if i < count {
            assert(texts(names@).len() == 0);
            assert(all.len() == i);
        }
    }
    out
}

/// An extendible enumeration's elements: names inline, values as AUIDs,
/// paired in order as far as both go.
fn ext_enum_elements(object: &Object) -> (r: Vec<(Auid, String)>)
    ensures
        ext_enum_read(*object, r@),
        r@.len() == shorter(auids_of(*object, 0x0020).len() as int, strings_of(*object, 0x001f).len() as int),
        forall|i: int| 0 <= i < r@.len() ==> (#[trigger] r@[i]).0@ == auids_of(*object, 0x0020)[i]
            && r@[i].1@ == strings_of(*object, 0x001f)[i],
{
    let mut names = utf16_array(object, 0x001f);
    let ghost all = texts(names@);
    let values = auid_array(object, 0x0020);
    let mut out: Vec<(Auid, String)> = Vec::new();
    let mut i: usize = 0;
    assert(all.skip(0) =~= all);
    while i < values.len() && names.len() > 0
        invariant
            auid_views(values@) == auids_of(*object, 0x0020),
            all == strings_of(*object, 0x001f),
            i <= values@.len(),
            i <= all.len(),
            texts(names@) == all.skip(i as int),
            out@.len() == i,
            forall|j: int| 0 <= j < i ==> (#[trigger] out@[j]).0@ == auid_views(values@)[j] && out@[j].1@ == all[j],
        decreases values@.len() - i,
    {
        let ghost before = names@;
        let name = names.remove(0);
        proof {
            assert(texts(before)[0] == name@);
            assert(texts(names@) =~= texts(before).drop_first());
            assert(all.skip(i as int)[0] == all[i as int]);
            assert(all.skip(i as int).drop_first() =~= all.skip(i + 1));
        }
        out.push((values[i], name));
        i = i + 1;
    }
    proof {
        if i < values@.len() {
            assert(texts(names@).len() == 0);
            assert(all.len() == i);
        }
    }
    out
}

/// Properties in pid order; properties with the same pid keep their order.
fn sort_by_pid(props: Vec<PropertyDef>) -> (r: Vec<PropertyDef>)
    ensures
        r@.len() == props@.len(),
        forall|i: int, j: int| 0 <= i < j < r@.len() ==> r@[i].pid <= r@[j].pid,
        forall|p: PropertyDef| r@.contains(p) <==> props@.contains(p),
{
    let mut out: Vec<PropertyDef> = Vec::new();
    let mut rest = props;
    let ghost all = rest@;
    let ghost mut taken: int = 0;
    assert(all.skip(0) =~= all);
    while rest.len() > 0
        invariant
            rest@ == all.skip(taken),
            0 <= taken <= all.len(),
            out@.len() == taken,
            forall|i: int, j: int| 0 <= i < j < out@.len() ==> out@[i].pid <= out@[j].pid,
            forall|p: PropertyDef| out@.contains(p) <==> all.take(taken).contains(p),
        decreases rest@.len(),
    {
        let p = rest.remove(0);
        assert(p == all[taken]);
        let mut k: usize = out.len();
        while k > 0 && out[k - 1].pid > p.pid
            invariant
                k <= out@.len(),
                forall|j: int| k <= j < out@.len() ==> out@[j].pid > p.pid,
            decreases k,
        {
            k = k - 1;
        }
        let ghost before = out@;
        out.insert(k, p);
        proof {
            assert(out@ == before.insert(k as int, p));
            assert forall|i: int, j: int| 0 <= i < j < out@.len() implies out@[i].pid <= out@[j].pid by {
                if i < k && j == k {
                    if k > 0 {
                        assert(before[k - 1].pid <= p.pid);
                        assert(before[i].pid <= before[k - 1].pid || i == k - 1);
                    }
                } else if i == k && j > k {
                    assert(out@[j] == before[j - 1]);
                } else if i < k && j > k {
                    assert(out@[i] == before[i] && out@[j] == before[j - 1]);
                } else if j < k {
                    assert(out@[i] == before[i] && out@[j] == before[j]);
                } else {
                    assert(out@[i] == before[i - 1] && out@[j] == before[j - 1]);
                }
            }
            let ghost t0 = all.take(taken);
            let ghost t1 = all.take(taken + 1);
            assert(t1 =~= t0.push(p));
            assert forall|q: PropertyDef| out@.contains(q) <==> t1.contains(q) by {
                if out@.contains(q) {
                    let w = choose|w: int| 0 <= w < out@.len() && out@[w] == q;
                    if w == k {
                        assert(t1[taken] == q);
                    } else {
                        if w < k { assert(before[w] == q); } else { assert(before[w - 1] == q); }
                        assert(before.contains(q));
                        assert(t0.contains(q));
                        let v = choose|v: int| 0 <= v < t0.len() && t0[v] == q;
                        assert(t1[v] == q);
                    }
                }
                if t1.contains(q) {
                    let w = choose|w: int| 0 <= w < t1.len() && #[trigger] t1[w] == q;
                    if w == taken {
                        assert(out@[k as int] == q);
                    } else {
                        assert(t0[w] == q);
                        assert(t0.contains(q));
                        assert(before.contains(q));
                        let v = choose|v: int| 0 <= v < before.len() && before[v] == q;
                        if v < k { assert(out@[v] == q); } else { assert(out@[v + 1] == q); }
                    }
                }
            }
            assert(all.skip(taken + 1) =~= all.skip(taken).drop_first());
            taken = taken + 1;
        }
    }
    assert(all.take(all.len() as int) =~= all);
    out
}

/// Whether `p` is the property definition that object `o` spells.
pub open spec fn property_read(o: Object, p: PropertyDef) -> bool {
    &&& data_spec(o, 0x0006) matches Some(d) && p.name@ == crate::utf16::utf16_text(d)
    &&& data_spec(o, 0x0005) == Some(p.auid@)
    &&& u16_of(o, 0x000d) == Some(p.pid)
    &&& data_spec(o, 0x000b) == Some(p.type_id@)
    &&& p.optional == bool_of(o, 0x000c)
    &&& p.unique == bool_of(o, 0x000e)
}

/// Whether object `o` holds what a property definition cannot be read
/// without: a name, an identifier, a pid and a type.
pub open spec fn property_readable(o: Object) -> bool {
    &&& data_spec(o, 0x0006) is Some
    &&& holds_auid(o, 0x0005)
    &&& u16_of(o, 0x000d) is Some
    &&& holds_auid(o, 0x000b)
}

/// Whether `defs` are the property definitions the members `ms` spell, in
/// order.
pub open spec fn defs_read(ms: Seq<(RefKey, Object)>, defs: Seq<PropertyDef>) -> bool {
    &&& defs.len() == ms.len()
    &&& forall|i: int| 0 <= i < ms.len() ==> property_read((#[trigger] ms[i]).1, defs[i])
}

/// Whether `props` hold the definitions of `defs`, as many, in pid order.
pub open spec fn in_pid_order(props: Seq<PropertyDef>, defs: Seq<PropertyDef>) -> bool {
    &&& props.len() == defs.len()
    &&& forall|i: int, j: int| 0 <= i < j < props.len() ==> props[i].pid <= props[j].pid
    &&& forall|q: PropertyDef| props.contains(q) <==> defs.contains(q)
}

/// Whether `props` are the properties class definition `o` declares: those
/// its set of property definitions spells, in pid order, or none where it
/// has no such set.
pub open spec fn class_properties(f: CompoundFile, o: Object, props: Seq<PropertyDef>) -> bool {
    match first_prop(o.stream_spec().properties@, 0x0009) {
        None => props.len() == 0,
        Some(p) => exists|ms: Seq<(RefKey, Object)>, defs: Seq<PropertyDef>|
            #![trigger set_members(f, o.storage_spec().0, &p, ms), defs_read(ms, defs)]
            set_members(f, o.storage_spec().0, &p, ms) && defs_read(ms, defs) && in_pid_order(props, defs),
    }
}

/// Whether `c` is the class definition that object `o` of file `f` spells.
pub open spec fn class_read(f: CompoundFile, o: Object, c: ClassDef) -> bool {
    &&& data_spec(o, 0x0006) matches Some(d) && c.name@ == crate::utf16::utf16_text(d)
    &&& data_spec(o, 0x0005) == Some(c.auid@)
    &&& c.parent@ == (match weak_target_of(o, 0x0008) { Some(a) => a, None => c.auid@ })
    &&& c.concrete == bool_of(o, 0x000a)
    &&& class_properties(f, o, c.properties@)
}

/// The first property an object carries with this pid.
fn find_property(object: &Object, pid: u16) -> (r: Option<&Property>)
    ensures
        match first_prop(object.stream_spec().properties@, pid) {
            Some(p) => r == Some(&p),
            None => r is None,
        },
{
    let found = object.get(pid);
    proof {
        let ps = object.stream_spec().properties@;
        if let Some(p) = found {
            let i = choose|i: int| 0 <= i < ps.len() && *p == ps[i] && p.pid == pid
                && forall|j: int| 0 <= j < i ==> (#[trigger] ps[j]).pid != pid;
            lemma_first_prop(ps, pid, i);
        } else {
            lemma_first_prop(ps, pid, ps.len() as int);
        }
    }
    found
}

/// The AUIDs among a weak reference collection's keys, in order.
pub open spec fn auid_keys(keys: Seq<KeyView>) -> Seq<Seq<u8>>
    decreases keys.len(),
{
    if keys.len() == 0 {
        Seq::empty()
    } else {
        let rest = auid_keys(keys.drop_last());
        match keys.last() {
            KeyView::Auid(a) => rest.push(a),
            KeyView::MobId(_) => rest,
        }
    }
}

/// Whether `v` is what the weak reference collection index that property
/// `p` of storage `s` names reads as.
pub open spec fn weak_index_read(f: CompoundFile, s: u32, p: Property, v: (u16, u16, Seq<KeyView>)) -> bool {
    p.index_spec() is Some && exists|c: u32| #[trigger] named_child(f, s, p.index_spec().unwrap(), c)
        && (stream_content(f, c) matches Ok(b) && weak_index_of(b) == Ok::<(u16, u16, Seq<KeyView>), Error>(v))
}

/// Whether `types` are the member types a record definition `o` of file
/// `f` names: the AUID keys of its weak reference collection, or AUIDs
/// stored inline, or none.
pub open spec fn record_types(f: CompoundFile, o: Object, types: Seq<Seq<u8>>) -> bool {
    match first_prop(o.stream_spec().properties@, 0x001c) {
        None => types.len() == 0,
        Some(p) => match p.value {
            PropertyValue::WeakRefArray { .. } => exists|v: (u16, u16, Seq<KeyView>)|
                #[trigger] weak_index_read(f, o.storage_spec().0, p, v) && types == auid_keys(v.2),
            PropertyValue::Data(d) => types == auids_in(d@),
            _ => types.len() == 0,
        },
    }
}

/// Whether `ms` are a record definition's members: its member names paired
/// in order with its member types, as far as both go.
pub open spec fn members_read(f: CompoundFile, o: Object, ms: Seq<(String, Auid)>) -> bool {
    let names = strings_of(o, 0x001d);
    exists|types: Seq<Seq<u8>>| #[trigger] record_types(f, o, types)
        && ms.len() == shorter(types.len() as int, names.len() as int)
        && forall|i: int| 0 <= i < ms.len() ==> (#[trigger] ms[i]).0@ == names[i] && ms[i].1@ == types[i]
}

/// The AUID a weak reference names, or the nil AUID where it names none.
pub open spec fn target_of(o: Object, pid: u16) -> Seq<u8> {
    match weak_target_of(o, pid) {
        Some(a) => a,
        None => Seq::new(16, |_i: int| 0u8),
    }
}

/// The class identifier of one of the definition classes.
pub open spec fn meta_class_bytes(kind: u16) -> Seq<u8> {
    seq![0x01u8, 0x01, 0x01, 0x0d, (kind % 256) as u8, (kind / 256) as u8, 0, 0, 0x06, 0x0e, 0x2b, 0x34, 0x02, 0x06, 0x01, 0x01]
}

/// Whether `els` are an enumeration definition's elements: its names paired
/// in order with its values, as far as both go.
pub open spec fn enum_read(o: Object, els: Seq<(i64, String)>) -> bool {
    &&& els.len() == shorter((bytes_of(o, 0x0016).len() / 8) as int, strings_of(o, 0x0015).len() as int)
    &&& forall|i: int| 0 <= i < els.len() ==> (#[trigger] els[i]).0 == signed64(le64(bytes_of(o, 0x0016), 8 * i))
        && els[i].1@ == strings_of(o, 0x0015)[i]
}

/// Whether `els` are an extendible enumeration definition's elements.
pub open spec fn ext_enum_read(o: Object, els: Seq<(Auid, String)>) -> bool {
    &&& els.len() == shorter(auids_of(o, 0x0020).len() as int, strings_of(o, 0x001f).len() as int)
    &&& forall|i: int| 0 <= i < els.len() ==> (#[trigger] els[i]).0@ == auids_of(o, 0x0020)[i]
        && els[i].1@ == strings_of(o, 0x001f)[i]
}

/// Whether `k` is the category a type definition object `o` of file `f`
/// spells: chosen by the class of the object, with the detail that
/// category needs read from its properties.
pub open spec fn kind_read(f: CompoundFile, o: Object, k: TypeKind) -> bool {
    let c = o.class_spec()@;
    if c == meta_class_bytes(0x0204) {
        k == TypeKind::Int {
            size: match byte_of(o, 0x000f) { Some(b) => b, None => 0u8 },
            signed: bool_of(o, 0x0010),
        }
    } else if c == meta_class_bytes(0x0205) {
        (k matches TypeKind::StrongRef { target } && target@ == target_of(o, 0x0011))
    } else if c == meta_class_bytes(0x0206) {
        (k matches TypeKind::WeakRef { target, target_set } && target@ == target_of(o, 0x0012)
            && auid_views(target_set@) == auids_of(o, 0x0013))
    } else if c == meta_class_bytes(0x0207) {
        (k matches TypeKind::Enum { element_type, elements } && element_type@ == target_of(o, 0x0014)
            && enum_read(o, elements@))
    } else if c == meta_class_bytes(0x0208) {
        (k matches TypeKind::FixedArray { element_type, count } && element_type@ == target_of(o, 0x0017)
            && count == (match u32_of(o, 0x0018) { Some(n) => n, None => 0u32 }))
    } else if c == meta_class_bytes(0x0209) {
        (k matches TypeKind::VarArray { element_type } && element_type@ == target_of(o, 0x0019))
    } else if c == meta_class_bytes(0x020a) {
        (k matches TypeKind::ElementSet { element_type } && element_type@ == target_of(o, 0x001a))
    } else if c == meta_class_bytes(0x020b) {
        (k matches TypeKind::String { element_type } && element_type@ == target_of(o, 0x001b))
    } else if c == meta_class_bytes(0x020c) {
        k is Stream
    } else if c == meta_class_bytes(0x020d) {
        (k matches TypeKind::Record { members } && members_read(f, o, members@))
    } else if c == meta_class_bytes(0x020e) {
        (k matches TypeKind::Rename { renamed } && renamed@ == target_of(o, 0x001e))
    } else if c == meta_class_bytes(0x0220) {
        (k matches TypeKind::ExtEnum { elements } && ext_enum_read(o, elements@))
    } else if c == meta_class_bytes(0x0221) {
        k is Indirect
    } else if c == meta_class_bytes(0x0222) {
        k is Opaque
    } else if c == meta_class_bytes(0x0223) {
        k is Character
    } else {
        (k matches TypeKind::Unknown { class_id } && class_id@ == c)
    }
}

/// Whether `t` is the type definition that object `o` of file `f` spells.
pub open spec fn type_read(f: CompoundFile, o: Object, t: TypeDef) -> bool {
    &&& data_spec(o, 0x0006) matches Some(d) && t.name@ == crate::utf16::utf16_text(d)
    &&& data_spec(o, 0x0005) == Some(t.auid@)
    &&& kind_read(f, o, t.kind)
}

/// The AUID a weak reference names, or the nil AUID.
fn target(object: &Object, pid: u16) -> (a: Auid)
    ensures
        a@ == target_of(*object, pid),
{
    match weak_ref_auid(object, pid) {
        Some(a) => a,
        None => {
            let a = Auid::nil();
            assert(a@ =~= target_of(*object, pid));
            a
        },
    }
}

impl MetaDictionary {
    /// Reads the members of one of the meta dictionary's two sets.
    fn definitions(file: &AafFile, metadict: &Object, pid: u16) -> (r: Result<Vec<(RefKey, Object)>>)
        requires
            file.wf(),
        ensures
            match first_prop(metadict.stream_spec().properties@, pid) {
                None => r matches Err(Error::MissingDefinitionProperty { definition, pid: p })
                    && definition@ == "the meta dictionary"@ && p == pid,
                Some(prop) => {
                    &&& !(prop.value is StrongRefSet) ==> r == Err::<Vec<(RefKey, Object)>, Error>(
                        Error::NotAReference { pid, expected: "a strong reference set" })
                    &&& r matches Ok(ms) ==> set_members(file.cfb_spec(), metadict.storage_spec().0, &prop, ms@)
                    &&& set_readable(file.cfb_spec(), metadict.storage_spec().0, &prop) ==> r is Ok
                },
            },
    {
        let found = metadict.get(pid);
        proof {
            let ps = metadict.stream_spec().properties@;
            if let Some(p) = found {
                let i = choose|i: int| 0 <= i < ps.len() && *p == ps[i] && p.pid == pid
                    && forall|j: int| 0 <= j < i ==> (#[trigger] ps[j]).pid != pid;
                lemma_first_prop(ps, pid, i);
            } else {
                lemma_first_prop(ps, pid, ps.len() as int);
            }
        }
        let property = match found {
            Some(p) => p,
            None => {
                let mut definition = String::new();
                push_str(&mut definition, "the meta dictionary");
                assert(definition@ =~= "the meta dictionary"@);
                return Err(Error::MissingDefinitionProperty { definition, pid });
            },
        };
        file.strong_ref_set(metadict, property)
    }

    /// Reads one property definition.
    fn read_property(object: &Object) -> (r: Result<PropertyDef>)
        ensures
            r matches Ok(p) ==> property_read(*object, p),
            r is Ok <==> property_readable(*object),
            r matches Err(e) ==> e is MissingDefinitionProperty,
    {
        let name = string(object, 0x0006)?;
        let auid = inline_auid(object, 0x0005, name.as_str())?;
        let pid = match u16_value(object, 0x000d) {
            Some(p) => p,
            None => { return Err(Error::MissingDefinitionProperty { definition: name.clone(), pid: 0x000d }); },
        };
        let type_id = inline_auid(object, 0x000b, name.as_str())?;
        Ok(PropertyDef {
            auid,
            pid,
            type_id,
            optional: boolean(object, 0x000c),
            unique: boolean(object, 0x000e),
            name,
        })
    }

    /// Reads one class definition, its own properties in pid order.
    fn read_class(file: &AafFile, object: &Object) -> (r: Result<ClassDef>)
        requires
            file.wf(),
        ensures
            r matches Ok(c) ==> class_read(file.cfb_spec(), *object, c),
            class_readable(file.cfb_spec(), *object) ==> r is Ok,
            data_spec(*object, 0x0006) is None || !holds_auid(*object, 0x0005) ==> r is Err,
    {
        let name = string(object, 0x0006)?;
        let auid = inline_auid(object, 0x0005, name.as_str())?;
        let mut properties: Vec<PropertyDef> = Vec::new();
        match find_property(object, 0x0009) {
            Some(property) => {
                let mut members = file.strong_ref_set(object, property)?;
                let ghost ms = members@;
                let n = members.len();
                let mut k: usize = 0;
                assert(ms.skip(0) =~= ms);
                let ghost readable = class_readable(file.cfb_spec(), *object);
                assert(set_members(file.cfb_spec(), object.storage_spec().0, property, ms));
                assert(readable ==> forall|i: int| 0 <= i < ms.len() ==> property_readable((#[trigger] ms[i]).1));
                while members.len() > 0
                    invariant
                        n == ms.len(),
                        k <= n,
                        members@ == ms.skip(k as int),
                        properties@.len() == k,
                        forall|i: int| 0 <= i < k ==> property_read((#[trigger] ms[i]).1, properties@[i]),
                        readable ==> forall|i: int| 0 <= i < ms.len() ==> property_readable((#[trigger] ms[i]).1),
                        readable == class_readable(file.cfb_spec(), *object),
                    decreases members@.len(),
                {
                    let (key, member) = members.remove(0);
                    proof {
                        assert(ms.skip(k as int)[0] == ms[k as int]);
                        assert(member == ms[k as int].1);
                        assert(ms.skip(k as int).drop_first() =~= ms.skip(k + 1));
                    }
                    let def = Self::read_property(&member)?;
                    properties.push(def);
                    k = k + 1;
                }
                let ghost defs = properties@;
                assert(defs_read(ms, defs));
                properties = sort_by_pid(properties);
                assert(set_members(file.cfb_spec(), object.storage_spec().0, property, ms));
                assert(in_pid_order(properties@, defs));
            },
            None => {},
        }
        let parent = match weak_ref_auid(object, 0x0008) {
            Some(p) => p,
            None => auid,
        };
        Ok(ClassDef { auid, parent, concrete: boolean(object, 0x000a), name, properties })
    }

    /// Reads a record type's members: names inline, types in an index stream
    /// or inline.
    fn read_record_members(file: &AafFile, object: &Object) -> (r: Result<Vec<(String, Auid)>>)
        requires
            file.wf(),
        ensures
            r matches Ok(ms) ==> members_read(file.cfb_spec(), *object, ms@),
            r is Err ==> (first_prop(object.stream_spec().properties@, 0x001c) matches Some(p) && p.value is WeakRefArray),
            record_types_readable(file.cfb_spec(), *object) ==> r is Ok,
    {
        let mut names = utf16_array(object, 0x001d);
        let ghost all = texts(names@);
        let mut types: Vec<Auid> = Vec::new();
        let ghost f = file.cfb_spec();
        match find_property(object, 0x001c) {
            Some(property) => match &property.value {
                PropertyValue::WeakRefArray { .. } => {
                    let index = file.weak_ref_array(object, property)?;
                    let ghost keys = index.view_parts().2;
                    let mut i: usize = 0;
                    assert(keys.take(0) =~= Seq::<KeyView>::empty());
                    assert(auid_views(types@) =~= Seq::<Seq<u8>>::empty());
                    while i < index.keys.len()
                        invariant
                            keys == index.keys@.map_values(|k: RefKey| k@),
                            i <= index.keys@.len(),
                            auid_views(types@) == auid_keys(keys.take(i as int)),
                        decreases index.keys@.len() - i,
                    {
                        let ghost before = types@;
                        proof {
                            assert(keys.take(i + 1).drop_last() =~= keys.take(i as int));
                            assert(keys.take(i + 1).last() == index.keys@[i as int]@);
                        }
                        match index.keys[i] {
                            RefKey::Auid(id) => {
                                types.push(id);
                                assert(auid_views(types@) =~= auid_views(before).push(id@));
                            },
                            RefKey::MobId(_) => {},
                        }
                        i = i + 1;
                    }
                    assert(keys.take(keys.len() as int) =~= keys);
                    proof {
                        assert(weak_index_read(f, object.storage_spec().0, *property, index.view_parts()));
                        assert(record_types(f, *object, auid_views(types@)));
                    }
                },
                PropertyValue::Data(d) => {
                    types = parse_auid_array(d.as_slice());
                    assert(auid_views(types@) =~= auids_in(d@));
                },
                _ => {
                    assert(auid_views(types@) =~= Seq::<Seq<u8>>::empty());
                },
            },
            None => {
                assert(auid_views(types@) =~= Seq::<Seq<u8>>::empty());
            },
        }
        let ghost tv = auid_views(types@);
        assert(record_types(f, *object, tv));
        let mut out: Vec<(String, Auid)> = Vec::new();
        let mut i: usize = 0;
        assert(all.skip(0) =~= all);
        while i < types.len() && names.len() > 0
            invariant
                tv == auid_views(types@),
                all == strings_of(*object, 0x001d),
                i <= types@.len(),
                i <= all.len(),
                texts(names@) == all.skip(i as int),
                out@.len() == i,
                forall|j: int| 0 <= j < i ==> (#[trigger] out@[j]).0@ == all[j] && out@[j].1@ == tv[j],
            decreases types@.len() - i,
        {
            let ghost before = names@;
            let name = names.remove(0);
            proof {
                assert(texts(before)[0] == name@);
                assert(texts(names@) =~= texts(before).drop_first());
                assert(all.skip(i as int)[0] == all[i as int]);
                assert(all.skip(i as int).drop_first() =~= all.skip(i + 1));
            }
            out.push((name, types[i]));
            i = i + 1;
        }
        proof {
            if i < types@.len() {
                assert(texts(names@).len() == 0);
                assert(all.len() == i);
            }
            assert(members_read(f, *object, out@));
        }
        Ok(out)
    }

    /// Reads one type definition; its category is the class of the
    /// definition object itself.
    fn read_type(file: &AafFile, object: &Object) -> (r: Result<TypeDef>)
        requires
            file.wf(),
        ensures
            r matches Ok(t) ==> type_read(file.cfb_spec(), *object, t),
            type_readable(file.cfb_spec(), *object) ==> r is Ok,
            data_spec(*object, 0x0006) is None || !holds_auid(*object, 0x0005) ==> r is Err,
            data_spec(*object, 0x0006) is Some && holds_auid(*object, 0x0005)
                && object.class_spec()@ != meta_class_bytes(0x020d) ==> r is Ok,
    {
        let name = string(object, 0x0006)?;
        let auid = inline_auid(object, 0x0005, name.as_str())?;
        let class_id = object.class_id();
        let kind = if class_id == meta_class(0x0204) {
            TypeKind::Int {
                size: match byte(object, 0x000f) { Some(b) => b, None => 0 },
                signed: boolean(object, 0x0010),
            }
        } else if class_id == meta_class(0x0205) {
            TypeKind::StrongRef { target: target(object, 0x0011) }
        } else if class_id == meta_class(0x0206) {
            TypeKind::WeakRef { target: target(object, 0x0012), target_set: auid_array(object, 0x0013) }
        } else if class_id == meta_class(0x0207) {
            TypeKind::Enum { element_type: target(object, 0x0014), elements: enum_elements(object) }
        } else if class_id == meta_class(0x0208) {
            TypeKind::FixedArray {
                element_type: target(object, 0x0017),
                count: match u32_value(object, 0x0018) { Some(c) => c, None => 0 },
            }
        } else if class_id == meta_class(0x0209) {
            TypeKind::VarArray { element_type: target(object, 0x0019) }
        } else if class_id == meta_class(0x020a) {
            TypeKind::ElementSet { element_type: target(object, 0x001a) }
        } else if class_id == meta_class(0x020b) {
            TypeKind::String { element_type: target(object, 0x001b) }
        } else if class_id == meta_class(0x020c) {
            TypeKind::Stream
        } else if class_id == meta_class(0x020d) {
            TypeKind::Record { members: Self::read_record_members(file, object)? }
        } else if class_id == meta_class(0x020e) {
            TypeKind::Rename { renamed: target(object, 0x001e) }
        } else if class_id == meta_class(0x0220) {
            TypeKind::ExtEnum { elements: ext_enum_elements(object) }
        } else if class_id == meta_class(0x0221) {
            TypeKind::Indirect
        } else if class_id == meta_class(0x0222) {
            TypeKind::Opaque
        } else if class_id == meta_class(0x0223) {
            TypeKind::Character
        } else {
            TypeKind::Unknown { class_id }
        };
        Ok(TypeDef { auid, name, kind })
    }

    /// Reads a file's meta dictionary: the root object's property 1, with
    /// its class definitions in property 3 and type definitions in property 4.
    ///
    /// Fails if the file has no meta dictionary, or if a definition in it is
    /// missing a property it cannot be read without.
    #[verifier::spinoff_prover]
    #[verifier::rlimit(60)]
    pub fn read(file: &AafFile) -> (r: Result<Self>)
        requires
            file.wf(),
        ensures
            r matches Ok(d) ==> d.wf() && dictionary_read(file.cfb_spec(), d),
            metadict_readable(file.cfb_spec()) ==> r is Ok,
    {
        let ghost f = file.cfb_spec();
        let root = file.root()?;
        let property = match find_property(&root, 0x0001) {
            Some(p) => p,
            None => {
                let mut definition = String::new();
                push_str(&mut definition, "the root object");
                return Err(Error::MissingDefinitionProperty { definition, pid: 0x0001 });
            },
        };
        let metadict = file.strong_ref(&root, property)?;
        assert(metadict_object(f, metadict));
        let ghost readable = metadict_readable(f);
        assert(readable ==> definitions_readable(f, metadict, 0x0003, true) && definitions_readable(f, metadict, 0x0004, false));
        let mut out = Self::new();
        let mut classes = Self::definitions(file, &metadict, 0x0003)?;
        let ghost cms = classes@;
        proof {
            if readable {
                assert(definition_set(f, metadict, 0x0003, cms));
                let p3 = first_prop(metadict.stream_spec().properties@, 0x0003)->Some_0;
                assert(set_members(f, metadict.storage_spec().0, &p3, cms));
            }
        }
        assert(readable ==> forall|i: int| 0 <= i < cms.len() ==> class_readable(f, (#[trigger] cms[i]).1));
        let ghost mut cs: Seq<ClassDef> = Seq::empty();
        let ghost mut k: int = 0;
        assert(cms.skip(0) =~= cms);
        while classes.len() > 0
            invariant
                file.wf(),
                f == file.cfb_spec(),
                out.wf(),
                0 <= k <= cms.len(),
                classes@ == cms.skip(k),
                cs.len() == k,
                forall|i: int| 0 <= i < k ==> class_read(f, (#[trigger] cms[i]).1, cs[i]),
                readable ==> forall|i: int| 0 <= i < cms.len() ==> class_readable(f, (#[trigger] cms[i]).1),
                readable ==> definitions_readable(f, metadict, 0x0004, false),
                readable == metadict_readable(f),
                out.class_map() == class_fold(cs),
                out.type_map() == Map::<Seq<u8>, TypeDef>::empty(),
            decreases classes@.len(),
        {
            let (_, object) = classes.remove(0);
            proof {
                assert(cms.skip(k)[0] == cms[k]);
                assert(object == cms[k].1);
                assert(cms.skip(k).drop_first() =~= cms.skip(k + 1));
            }
            let class = Self::read_class(file, &object)?;
            out.define_class(class);
            proof {
                let next = cs.push(class);
                assert(next.drop_last() =~= cs);
                cs = next;
                k = k + 1;
            }
        }
        assert(classes_from(f, cms, cs));
        let mut types = Self::definitions(file, &metadict, 0x0004)?;
        let ghost tms = types@;
        proof {
            if readable {
                let p4 = first_prop(metadict.stream_spec().properties@, 0x0004)->Some_0;
                assert(set_members(f, metadict.storage_spec().0, &p4, tms));
            }
        }
        assert(readable ==> forall|i: int| 0 <= i < tms.len() ==> type_readable(f, (#[trigger] tms[i]).1));
        let ghost mut ts: Seq<TypeDef> = Seq::empty();
        let ghost mut m: int = 0;
        assert(tms.skip(0) =~= tms);
        assert(type_fold(ts) =~= Map::<Seq<u8>, TypeDef>::empty());
        while types.len() > 0
            invariant
                file.wf(),
                f == file.cfb_spec(),
                out.wf(),
                0 <= m <= tms.len(),
                types@ == tms.skip(m),
                ts.len() == m,
                forall|i: int| 0 <= i < m ==> type_read(f, (#[trigger] tms[i]).1, ts[i]),
                readable ==> forall|i: int| 0 <= i < tms.len() ==> type_readable(f, (#[trigger] tms[i]).1),
                readable == metadict_readable(f),
                out.class_map() == class_fold(cs),
                out.type_map() == type_fold(ts),
            decreases types@.len(),
        {
            let (_, object) = types.remove(0);
            proof {
                assert(tms.skip(m)[0] == tms[m]);
                assert(object == tms[m].1);
                assert(tms.skip(m).drop_first() =~= tms.skip(m + 1));
            }
            let type_def = Self::read_type(file, &object)?;
            out.define_type(type_def);
            proof {
                let next = ts.push(type_def);
                assert(next.drop_last() =~= ts);
                ts = next;
                m = m + 1;
            }
        }
        assert(types_from(f, tms, ts));
        assert(definition_set(f, metadict, 0x0003, cms));
        assert(definition_set(f, metadict, 0x0004, tms));
        assert(dictionary_read(f, out));
        Ok(out)
    }
}

/// The classes of `cs` by identifier, a later one in place of an earlier
/// one with the same identifier.
pub open spec fn class_fold(cs: Seq<ClassDef>) -> Map<Seq<u8>, ClassDef>
    decreases cs.len(),
{
    if cs.len() == 0 {
        Map::empty()
    } else {
        class_fold(cs.drop_last()).insert(cs.last().auid@, cs.last())
    }
}

/// The types of `ts` by identifier, a later one in place of an earlier one
/// with the same identifier.
pub open spec fn type_fold(ts: Seq<TypeDef>) -> Map<Seq<u8>, TypeDef>
    decreases ts.len(),
{
    if ts.len() == 0 {
        Map::empty()
    } else {
        type_fold(ts.drop_last()).insert(ts.last().auid@, ts.last())
    }
}

/// Whether `cs` are the class definitions the members `ms` spell, in order.
pub open spec fn classes_from(f: CompoundFile, ms: Seq<(RefKey, Object)>, cs: Seq<ClassDef>) -> bool {
    &&& cs.len() == ms.len()
    &&& forall|i: int| 0 <= i < ms.len() ==> class_read(f, (#[trigger] ms[i]).1, cs[i])
}

/// Whether `ts` are the type definitions the members `ms` spell, in order.
pub open spec fn types_from(f: CompoundFile, ms: Seq<(RefKey, Object)>, ts: Seq<TypeDef>) -> bool {
    &&& ts.len() == ms.len()
    &&& forall|i: int| 0 <= i < ms.len() ==> type_read(f, (#[trigger] ms[i]).1, ts[i])
}

/// Whether `md` is the object the root object's property 1 points at: the
/// meta dictionary.
pub open spec fn metadict_object(f: CompoundFile, md: Object) -> bool {
    exists|root: Object| #[trigger] object_read(f, 0, root) && match first_prop(root.stream_spec().properties@, 0x0001) {
        Some(p) => match p.value {
            PropertyValue::StrongRef { name } => exists|c: u32| #[trigger] named_child(f, 0, name@, c) && object_read(f, c, md),
            _ => false,
        },
        None => false,
    }
}

/// Whether `ms` are the members of the meta dictionary's set with this pid.
pub open spec fn definition_set(f: CompoundFile, md: Object, pid: u16, ms: Seq<(RefKey, Object)>) -> bool {
    match first_prop(md.stream_spec().properties@, pid) {
        Some(p) => set_members(f, md.storage_spec().0, &p, ms),
        None => false,
    }
}

/// Whether `d` holds the definitions a file's meta dictionary lists: its
/// classes (the set in property 3) and its types (the set in property 4),
/// each by identifier.
pub open spec fn dictionary_read(f: CompoundFile, d: MetaDictionary) -> bool {
    exists|md: Object, cms: Seq<(RefKey, Object)>, cs: Seq<ClassDef>, tms: Seq<(RefKey, Object)>, ts: Seq<TypeDef>|
        #![trigger metadict_object(f, md), classes_from(f, cms, cs), types_from(f, tms, ts)]
        metadict_object(f, md) && definition_set(f, md, 0x0003, cms) && classes_from(f, cms, cs)
            && definition_set(f, md, 0x0004, tms) && types_from(f, tms, ts)
            && d.class_map() == class_fold(cs) && d.type_map() == type_fold(ts)
}

/// Whether a class definition object can be read: it has a name and an
/// identifier, and any set of property definitions it has is readable, each
/// member a readable property definition.
pub open spec fn class_readable(f: CompoundFile, o: Object) -> bool {
    &&& data_spec(o, 0x0006) is Some
    &&& holds_auid(o, 0x0005)
    &&& match first_prop(o.stream_spec().properties@, 0x0009) {
        None => true,
        Some(p) => set_readable(f, o.storage_spec().0, &p)
            && forall|ms: Seq<(RefKey, Object)>| #[trigger] set_members(f, o.storage_spec().0, &p, ms)
                ==> forall|i: int| 0 <= i < ms.len() ==> property_readable((#[trigger] ms[i]).1),
    }
}

/// Whether a type definition object can be read: it has a name and an
/// identifier, and a record's collection of member types, where it has one,
/// has an index that parses.
pub open spec fn type_readable(f: CompoundFile, o: Object) -> bool {
    &&& data_spec(o, 0x0006) is Some
    &&& holds_auid(o, 0x0005)
    &&& o.class_spec()@ == meta_class_bytes(0x020d) ==> record_types_readable(f, o)
}

/// Whether a record definition's collection of member types, where it has
/// one, has an index that parses.
pub open spec fn record_types_readable(f: CompoundFile, o: Object) -> bool {
    match first_prop(o.stream_spec().properties@, 0x001c) {
        Some(p) => p.value is WeakRefArray ==> weak_array_readable(f, o.storage_spec().0, &p),
        None => true,
    }
}

/// Whether a definition set of the meta dictionary object `md` is there and
/// readable, and `ok` holds of each member.
pub open spec fn definitions_readable(f: CompoundFile, md: Object, pid: u16, classes: bool) -> bool {
    match first_prop(md.stream_spec().properties@, pid) {
        None => false,
        Some(p) => set_readable(f, md.storage_spec().0, &p)
            && forall|ms: Seq<(RefKey, Object)>| #[trigger] set_members(f, md.storage_spec().0, &p, ms)
                ==> forall|i: int| 0 <= i < ms.len() ==> (if classes { class_readable(f, (#[trigger] ms[i]).1) }
                    else { type_readable(f, ms[i].1) }),
    }
}

/// Whether a file's meta dictionary can be read: the root object is
/// readable and points at the meta dictionary by property 1, whose class
/// and type definition sets are readable.
pub open spec fn metadict_readable(f: CompoundFile) -> bool {
    &&& object_readable(f, 0)
    &&& forall|root: Object| #[trigger] object_read(f, 0, root) ==> (first_prop(root.stream_spec().properties@, 0x0001)
        matches Some(p) && ref_readable(f, 0, &p))
    &&& forall|md: Object| #[trigger] metadict_object(f, md) ==> definitions_readable(f, md, 0x0003, true)
        && definitions_readable(f, md, 0x0004, false)
}

impl Default for MetaDictionary {
    fn default() -> (r: Self)
        ensures
            r.wf(),
            r.class_map() == Map::<Seq<u8>, ClassDef>::empty(),
            r.type_map() == Map::<Seq<u8>, TypeDef>::empty(),
            r.class_names() == Map::<Seq<char>, Seq<u8>>::empty(),
            r.type_names() == Map::<Seq<char>, Seq<u8>>::empty(),
    {
        Self::new()
    }
}

} // verus!
