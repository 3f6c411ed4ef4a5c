//! AAF objects: what each storage of the compound file holds.
//!
//! Every AAF object is a storage with a class identifier and a `properties`
//! stream. An object owns the objects its strong references name, which are
//! storages nested inside its own; that nesting is what makes the file a tree.

use vstd::prelude::*;

use crate::auid::Auid;
use crate::cfb::dir_entry::{DirEntry, DirId};
use crate::cfb::file::{entry_path, listing_fault, rooted, stream_content, CompoundFile};
use crate::cfb::names::name_same;
use crate::cfb::tree::in_tree;
use crate::error::{Error, Result};
use crate::property::{
    member_storage_name, set_index_of, stream_of, vector_index_of, weak_index_of, KeyView, Property,
    PropertyFormat, PropertyStream, PropertyValue, RefKey, SetIndex, ValueView, VectorIndex, WeakRefArrayIndex,
};
use crate::text::{decimal, hex_number, name_order, push_decimal, push_str};

verus! {

/// One AAF object: the storage it lives in, its class and its properties.
#[derive(Debug, Clone)]
pub struct Object {
    storage: DirId,
    class_id: Auid,
    properties: PropertyStream,
}

impl Object {
    /// The storage the object lives in.
    pub closed spec fn storage_spec(&self) -> DirId {
        self.storage
    }

    /// The object's class identifier.
    pub closed spec fn class_spec(&self) -> Auid {
        self.class_id
    }

    /// The object's properties as they were stored.
    pub closed spec fn stream_spec(&self) -> PropertyStream {
        self.properties
    }

    /// The storage the object lives in.
    pub fn storage(&self) -> (r: DirId)
        ensures
            r == self.storage_spec(),
    {
        self.storage
    }

    /// The object's class identifier; an all-zero identifier where its
    /// storage carries none.
    pub fn class_id(&self) -> (r: Auid)
        ensures
            r == self.class_spec(),
    {
        self.class_id
    }

    /// The object's properties, in the order its stream lists them.
    pub fn properties(&self) -> (r: &[Property])
        ensures
            r@ == self.stream_spec().properties@,
    {
        self.properties.properties.as_slice()
    }

    /// The property stream's format version.
    pub fn version(&self) -> (r: u8)
        ensures
            r == self.stream_spec().version,
    {
        self.properties.version
    }

    /// The property with this pid, if the object has one: the first listed.
    pub fn get(&self, pid: u16) -> (r: Option<&Property>)
        ensures
            r matches Some(p) ==> exists|i: int| 0 <= i < self.stream_spec().properties@.len()
                && *p == self.stream_spec().properties@[i] && p.pid == pid
                && forall|j: int| 0 <= j < i ==> (#[trigger] self.stream_spec().properties@[j]).pid != pid,
            r is None ==> forall|j: int| 0 <= j < self.stream_spec().properties@.len()
                ==> (#[trigger] self.stream_spec().properties@[j]).pid != pid,
    {
        self.properties.get(pid)
    }
}

/// Whether `c` is an entry of storage `parent` whose name compares equal to
/// `name` the way the format compares names.
pub open spec fn named_child(f: CompoundFile, parent: u32, name: Seq<char>, c: u32) -> bool {
    let es = f.entries_view();
    &&& parent < es.len()
    &&& es[parent as int].entry_type.storage()
    &&& c < es.len()
    &&& in_tree(es, es[parent as int].child, c)
    &&& name_order(es[c as int].name@, name) == 0
}

/// The bytes of the identifier an object of entry `e` has: its class, or
/// all zeros.
pub open spec fn class_bytes(e: DirEntry) -> Seq<u8> {
    match e.class_id {
        Some(a) => a@,
        None => Seq::new(16, |_i: int| 0u8),
    }
}

/// Whether `o` is the object stored in entry `s`: its class, and the
/// properties its `properties` stream holds, or none where it has no such
/// stream.
pub open spec fn object_read(f: CompoundFile, s: u32, o: Object) -> bool {
    let es = f.entries_view();
    &&& s < es.len()
    &&& o.storage_spec() == DirId(s)
    &&& o.class_spec()@ == class_bytes(es[s as int])
    &&& es[s as int].entry_type.storage()
    &&& {
        ||| exists|c: u32| #[trigger] named_child(f, s, "properties"@, c) && (stream_content(f, c) matches Ok(b)
            && stream_of(b) == Ok::<(u8, Seq<(u16, PropertyFormat, ValueView)>), Error>((o.stream_spec().version, o.stream_spec().entries_view())))
        ||| (forall|c: u32| !#[trigger] named_child(f, s, "properties"@, c)) && o.stream_spec().version == 0
            && o.stream_spec().properties@.len() == 0
    }
}

/// Whether storage `s`'s members can be listed: it is a storage of the file
/// and the tree of its members is sound.
pub open spec fn listable(f: CompoundFile, s: u32) -> bool {
    forall|e: crate::cfb::error::Error| !#[trigger] listing_fault(f.entries_view(), s, e)
}

/// Whether the object in storage `s` can be read: its members can be
/// listed, and every `properties` stream in it reads whole and parses.
pub open spec fn object_readable(f: CompoundFile, s: u32) -> bool {
    &&& listable(f, s)
    &&& forall|c: u32| #[trigger] named_child(f, s, "properties"@, c)
        ==> (stream_content(f, c) matches Ok(b) && stream_of(b) is Ok)
}

/// Whether storage `s` holds an entry of this name, and every entry of that
/// name is a readable object.
pub open spec fn member_readable(f: CompoundFile, s: u32, name: Seq<char>) -> bool {
    &&& listable(f, s)
    &&& exists|c: u32| #[trigger] named_child(f, s, name, c)
    &&& forall|c: u32| #[trigger] named_child(f, s, name, c) ==> object_readable(f, c)
}

/// Whether the index stream a collection property names is in storage `s`
/// and every stream of that name reads whole.
pub open spec fn index_loadable(f: CompoundFile, s: u32, property: &Property) -> bool {
    &&& property.index_spec() is Some
    &&& listable(f, s)
    &&& exists|c: u32| #[trigger] named_child(f, s, property.index_spec().unwrap(), c)
    &&& forall|c: u32| #[trigger] named_child(f, s, property.index_spec().unwrap(), c) ==> stream_content(f, c) is Ok
}

/// Whether a strong reference vector of storage `s` can be read whole: its
/// index loads and parses, and every member it lists is a readable object.
pub open spec fn vector_readable(f: CompoundFile, s: u32, property: &Property) -> bool {
    &&& property.value is StrongRefVector
    &&& index_loadable(f, s, property)
    &&& forall|c: u32| #[trigger] named_child(f, s, property.index_spec().unwrap(), c) ==>
        (stream_content(f, c) matches Ok(b) && vector_index_of(b) matches Ok(v)
            && forall|j: int| 0 <= j < v.2.len() ==> #[trigger] member_readable(f, s,
                member_name(property.value->StrongRefVector_index_name@, v.2[j])))
}

/// Whether a strong reference set of storage `s` can be read whole: its
/// index loads and parses, and every member it lists is a readable object.
pub open spec fn set_readable(f: CompoundFile, s: u32, property: &Property) -> bool {
    &&& property.value is StrongRefSet
    &&& index_loadable(f, s, property)
    &&& forall|c: u32| #[trigger] named_child(f, s, property.index_spec().unwrap(), c) ==>
        (stream_content(f, c) matches Ok(b) && set_index_of(b) matches Ok(v)
            && forall|j: int| 0 <= j < v.3.len() ==> #[trigger] member_readable(f, s,
                member_name(property.value->StrongRefSet_index_name@, v.3[j].0)))
}

/// Whether a weak reference collection of storage `s` has an index that
/// loads and parses.
pub open spec fn weak_array_readable(f: CompoundFile, s: u32, property: &Property) -> bool {
    &&& property.value is WeakRefArray
    &&& index_loadable(f, s, property)
    &&& forall|c: u32| #[trigger] named_child(f, s, property.index_spec().unwrap(), c) ==>
        (stream_content(f, c) matches Ok(b) && weak_index_of(b) is Ok)
}

/// Whether a single strong reference of storage `s` can be read: the entry
/// it names is there and a readable object.
pub open spec fn ref_readable(f: CompoundFile, s: u32, property: &Property) -> bool {
    property.value matches PropertyValue::StrongRef { name } && member_readable(f, s, name@)
}

/// The members a readable vector's index lists are readable objects.
proof fn lemma_vector_members_readable(f: CompoundFile, s: u32, property: &Property, c: u32, v: (u32, u32, Seq<u32>))
    requires
        vector_readable(f, s, property),
        named_child(f, s, property.index_spec().unwrap(), c),
        stream_content(f, c) matches Ok(b) && vector_index_of(b) == Ok::<(u32, u32, Seq<u32>), Error>(v),
    ensures
        forall|j: int| 0 <= j < v.2.len() ==> #[trigger] member_readable(f, s, member_name(property.value->StrongRefVector_index_name@, v.2[j])),
{
    let b = stream_content(f, c)->Ok_0;
    let w = vector_index_of(b)->Ok_0;
    assert(w == v);
    assert forall|j: int| 0 <= j < v.2.len() implies #[trigger] member_readable(f, s, member_name(property.value->StrongRefVector_index_name@, v.2[j])) by {
        assert(member_readable(f, s, member_name(property.value->StrongRefVector_index_name@, w.2[j])));
    }
}

/// The members a readable set's index lists are readable objects.
proof fn lemma_set_members_readable(f: CompoundFile, s: u32, property: &Property, c: u32, v: (u32, u32, u16, Seq<(u32, u32, KeyView)>))
    requires
        set_readable(f, s, property),
        named_child(f, s, property.index_spec().unwrap(), c),
        stream_content(f, c) matches Ok(b) && set_index_of(b) == Ok::<(u32, u32, u16, Seq<(u32, u32, KeyView)>), Error>(v),
    ensures
        forall|j: int| 0 <= j < v.3.len() ==> #[trigger] member_readable(f, s, member_name(property.value->StrongRefSet_index_name@, v.3[j].0)),
{
    let b = stream_content(f, c)->Ok_0;
    let w = set_index_of(b)->Ok_0;
    assert(w == v);
    assert forall|j: int| 0 <= j < v.3.len() implies #[trigger] member_readable(f, s, member_name(property.value->StrongRefSet_index_name@, v.3[j].0)) by {
        assert(member_readable(f, s, member_name(property.value->StrongRefSet_index_name@, w.3[j].0)));
    }
}

/// The objects of a set's members, in the order the set lists them.
pub open spec fn member_objects(ms: Seq<(RefKey, Object)>) -> Seq<Object> {
    ms.map_values(|m: (RefKey, Object)| m.1)
}

/// Whether `objs` are the objects property `p` of storage `s` owns: the
/// one a single strong reference names, a vector's or a set's members in the
/// order its index lists them, or none for any other property.
pub open spec fn group_of(f: CompoundFile, s: u32, p: Property, objs: Seq<Object>) -> bool {
    match p.format {
        PropertyFormat::StrongRef => p.value is StrongRef && objs.len() == 1
            && member_read(f, s, p.value->StrongRef_name@, objs[0]),
        PropertyFormat::StrongRefVector => vector_members(f, s, &p, objs),
        PropertyFormat::StrongRefSet => exists|ms: Seq<(RefKey, Object)>| #[trigger] set_members(f, s, &p, ms)
            && objs == member_objects(ms),
        _ => objs.len() == 0,
    }
}

/// Whether the objects property `p` of storage `s` owns can all be read.
pub open spec fn group_readable(f: CompoundFile, s: u32, p: Property) -> bool {
    match p.format {
        PropertyFormat::StrongRef => ref_readable(f, s, &p),
        PropertyFormat::StrongRefVector => vector_readable(f, s, &p),
        PropertyFormat::StrongRefSet => set_readable(f, s, &p),
        _ => true,
    }
}

/// Objects, each with the pid of the property that owns it.
pub open spec fn tagged(pid: u16, objs: Seq<Object>) -> Seq<(u16, Object)> {
    Seq::new(objs.len(), |i: int| (pid, objs[i]))
}

/// The groups of objects of each property, one after another, each object
/// with its property's pid.
pub open spec fn flatten(props: Seq<Property>, groups: Seq<Seq<Object>>) -> Seq<(u16, Object)>
    decreases props.len(),
{
    if props.len() == 0 || groups.len() == 0 {
        Seq::empty()
    } else {
        flatten(props.drop_last(), groups.drop_last()) + tagged(props.last().pid, groups.last())
    }
}

/// Whether `out` is every object the properties `props` of storage `s` own,
/// property by property in order, each with its property's pid.
pub open spec fn children_of(f: CompoundFile, s: u32, props: Seq<Property>, out: Seq<(u16, Object)>) -> bool {
    exists|groups: Seq<Seq<Object>>| #[trigger] flatten(props, groups) == out && groups.len() == props.len()
        && forall|k: int| 0 <= k < props.len() ==> #[trigger] group_of(f, s, props[k], groups[k])
}

/// The objects a property owns are stored in the storage that owns it.
proof fn lemma_group_owned(f: CompoundFile, s: u32, p: Property, objs: Seq<Object>)
    requires
        group_of(f, s, p, objs),
    ensures
        forall|i: int| 0 <= i < objs.len() ==> owned_by(f, s, #[trigger] objs[i]),
        objs.len() > 0 ==> p.format.is_strong_spec(),
{
    match p.format {
        PropertyFormat::StrongRef => {
            assert(member_read(f, s, p.value->StrongRef_name@, objs[0]));
        },
        PropertyFormat::StrongRefVector => {
            lemma_vector_owned(f, s, &p, objs);
        },
        PropertyFormat::StrongRefSet => {
            let ms = choose|ms: Seq<(RefKey, Object)>| #[trigger] set_members(f, s, &p, ms) && objs == member_objects(ms);
            lemma_set_owned(f, s, &p, ms);
            assert forall|i: int| 0 <= i < objs.len() implies owned_by(f, s, #[trigger] objs[i]) by {
                assert(objs[i] == ms[i].1);
            }
        },
        _ => {},
    }
}

/// An AAF file: a compound file read as AAF objects.

pub struct AafFile {
    cfb: CompoundFile,
}

impl AafFile {
    /// The compound file underneath.
    pub closed spec fn cfb_spec(&self) -> CompoundFile {
        self.cfb
    }

    /// The compound file underneath was opened whole.
    pub open spec fn wf(&self) -> bool {
        self.cfb_spec().wf()
    }

    /// Opens an AAF file from its bytes.
    pub fn open(data: Vec<u8>) -> (r: Result<Self>)
        ensures
            r matches Ok(f) ==> f.wf() && f.cfb_spec().bytes() == data@ && crate::cfb::file::opened_from(data@, f.cfb_spec()),
            r matches Err(e) ==> e matches Error::Cfb(c) && crate::cfb::file::open_fault(data@, c),
    {
        match CompoundFile::open(data) {
            Ok(cfb) => Ok(Self { cfb }),
            Err(e) => Err(Error::Cfb(e)),
        }
    }

    /// The compound file underneath.
    pub fn cfb(&self) -> (r: &CompoundFile)
        ensures
            *r == self.cfb_spec(),
    {
        &self.cfb
    }

    /// The compound file underneath, to change.
    pub fn cfb_mut(&mut self) -> (r: &mut CompoundFile)
        ensures
            *r == old(self).cfb_spec(),
            final(self).cfb_spec() == *final(r),
    {
        &mut self.cfb
    }

    /// The entry of storage `parent` with this name, if there is one: the
    /// first in name order.
    fn child(&self, parent: DirId, name: &str) -> (r: Result<Option<DirId>>)
        requires
            self.wf(),
        ensures
            r matches Ok(Some(c)) ==> named_child(self.cfb_spec(), parent.0, name@, c.0),
            r matches Ok(None) ==> parent.0 < self.cfb_spec().entries_view().len()
                && self.cfb_spec().entries_view()[parent.0 as int].entry_type.storage()
                && forall|c: u32| !#[trigger] named_child(self.cfb_spec(), parent.0, name@, c),
            r matches Err(e) ==> e matches Error::Cfb(c) && listing_fault(self.cfb_spec().entries_view(), parent.0, c),
            listable(self.cfb_spec(), parent.0) ==> r is Ok,
    {
        let kids = match self.cfb.children(parent) {
            Ok(k) => k,
            Err(e) => {
                assert(listing_fault(self.cfb_spec().entries_view(), parent.0, e));
                return Err(Error::Cfb(e));
            },
        };
        let ghost es = self.cfb.entries_view();
        let ghost ids = choose|ids: Seq<u32>| {
            &&& parent.0 < es.len()
            &&& es[parent.0 as int].entry_type.storage()
            &&& crate::cfb::tree::lists_tree(es, es[parent.0 as int].child, ids)
            &&& crate::cfb::tree::in_name_order(es, ids)
            &&& kids@.len() == ids.len()
            &&& forall|i: int| 0 <= i < ids.len() ==> *kids@[i] == es[#[trigger] ids[i] as int]
        };
        proof { self.cfb.lemma_entry_ids(); }
        let mut i: usize = 0;
        while i < kids.len()
            invariant
                self.wf(),
                es == self.cfb.entries_view(),
                forall|k: int| 0 <= k < es.len() ==> (#[trigger] es[k]).id == DirId(k as u32),
                parent.0 < es.len(),
                es[parent.0 as int].entry_type.storage(),
                crate::cfb::tree::lists_tree(es, es[parent.0 as int].child, ids),
                kids@.len() == ids.len(),
                forall|k: int| 0 <= k < ids.len() ==> *kids@[k] == es[#[trigger] ids[k] as int],
                i <= kids@.len(),
                forall|k: int| 0 <= k < i ==> name_order(es[#[trigger] ids[k] as int].name@, name@) != 0,
            decreases kids@.len() - i,
        {
            let entry = kids[i];
            if name_same(entry.name.as_str(), name) {
                assert(entry.id == DirId(ids[i as int]));
                return Ok(Some(entry.id));
            }
            i = i + 1;
        }
        proof {
            assert forall|c: u32| !#[trigger] named_child(self.cfb_spec(), parent.0, name@, c) by {
                if named_child(self.cfb_spec(), parent.0, name@, c) {
                    assert(ids.contains(c));
                    let w = choose|w: int| 0 <= w < ids.len() && ids[w] == c;
                    assert(name_order(es[ids[w] as int].name@, name@) != 0);
                }
            }
        }
        Ok(None)
    }

    /// A storage's path, or its number where it has none.
    fn path_or_id(&self, storage: DirId) -> (r: String)
        requires
            self.wf(),
        ensures
            r@ == (if rooted(self.cfb_spec(), storage.0 as int) { entry_path(self.cfb_spec(), storage.0 as int) }
                else { "directory entry "@ + decimal(storage.0 as nat) }),
    {
        match self.cfb.path(storage) {
            Ok(p) => p,
            Err(_) => {
                let mut out = String::new();
                push_str(&mut out, "directory entry ");
                push_decimal(&mut out, storage.0 as u64);
                out
            },
        }
    }

    /// The entry of storage `parent` with this name, which must be there.
    fn require_child(&self, parent: DirId, name: &str) -> (r: Result<DirId>)
        requires
            self.wf(),
        ensures
            r matches Ok(c) ==> named_child(self.cfb_spec(), parent.0, name@, c.0),
            r matches Err(Error::MissingEntry { name: n, .. }) ==> n@ == name@
                && forall|c: u32| !#[trigger] named_child(self.cfb_spec(), parent.0, name@, c),
            listable(self.cfb_spec(), parent.0) && (exists|c: u32| #[trigger] named_child(self.cfb_spec(), parent.0, name@, c))
                ==> r is Ok,
    {
        match self.child(parent, name)? {
            Some(c) => Ok(c),
            None => Err(Error::MissingEntry { name: name.to_owned(), parent: self.path_or_id(parent) }),
        }
    }

    /// Reads the object in this storage.
    ///
    /// Fails if the entry does not exist or is not a storage, or if its
    /// property stream is corrupt.
    pub fn read_object(&self, storage: DirId) -> (r: Result<Object>)
        requires
            self.wf(),
        ensures
            r matches Ok(o) ==> object_read(self.cfb_spec(), storage.0, o),
            object_readable(self.cfb_spec(), storage.0) ==> r is Ok,
    {
        let entry = match self.cfb.entry(storage) {
            Ok(e) => e,
            Err(e) => {
                assert(listing_fault(self.cfb_spec().entries_view(), storage.0, e));
                return Err(Error::Cfb(e));
            },
        };
        let class_id = match entry.class_id {
            Some(c) => c,
            None => Auid::nil(),
        };
        let properties = match self.child(storage, "properties")? {
            Some(stream) => {
                let bytes = match self.cfb.read_stream(stream) {
                    Ok(b) => b,
                    Err(e) => { return Err(Error::Cfb(e)); },
                };
                assert(named_child(self.cfb_spec(), storage.0, "properties"@, stream.0));
                PropertyStream::parse(bytes.as_slice())?
            },
            None => PropertyStream { version: 0, properties: Vec::new() },
        };
        Ok(Object { storage, class_id, properties })
    }

    /// Reads the root object.
    pub fn root(&self) -> (r: Result<Object>)
        requires
            self.wf(),
        ensures
            r matches Ok(o) ==> object_read(self.cfb_spec(), 0, o),
            object_readable(self.cfb_spec(), 0) ==> r is Ok,
    {
        self.read_object(DirId(0))
    }

    /// Reads the index stream a collection property names, with the entry
    /// it was read from.
    fn read_index(&self, owner: &Object, property: &Property) -> (r: Result<(DirId, Vec<u8>)>)
        requires
            self.wf(),
        ensures
            r matches Ok(p) ==> property.index_spec() == Some(index_text(property))
                && named_child(self.cfb_spec(), owner.storage_spec().0, index_text(property), p.0.0)
                && stream_content(self.cfb_spec(), p.0.0) == Ok::<Seq<u8>, crate::cfb::error::Error>(p.1@),
            index_loadable(self.cfb_spec(), owner.storage_spec().0, property) ==> r is Ok,
    {
        let name = match property.index_stream_name() {
            Some(n) => n,
            None => { return Err(Error::NotAReference { pid: property.pid, expected: "a collection" }); },
        };
        let stream = match self.child(owner.storage, name.as_str())? {
            Some(s) => s,
            None => {
                return Err(Error::MissingIndex { name: name.clone(), parent: self.path_or_id(owner.storage) });
            },
        };
        assert(named_child(self.cfb_spec(), owner.storage_spec().0, property.index_spec().unwrap(), stream.0));
        match self.cfb.read_stream(stream) {
            Ok(b) => Ok((stream, b)),
            Err(e) => Err(Error::Cfb(e)),
        }
    }

    /// Reads a strong reference vector's index.
    pub fn vector_index(&self, owner: &Object, property: &Property) -> (r: Result<VectorIndex>)
        requires
            self.wf(),
        ensures
            !(property.value is StrongRefVector) ==> r == Err::<VectorIndex, Error>(
                Error::NotAReference { pid: property.pid, expected: "a strong reference vector" }),
            r matches Ok(v) ==> property.index_spec() is Some
                && exists|c: u32| #[trigger] named_child(self.cfb_spec(), owner.storage_spec().0, property.index_spec().unwrap(), c)
                    && (stream_content(self.cfb_spec(), c) matches Ok(b)
                    && vector_index_of(b) == Ok::<(u32, u32, Seq<u32>), Error>(v.view_parts())),
            vector_readable(self.cfb_spec(), owner.storage_spec().0, property) ==> r is Ok,
    {
        if !matches!(property.value, PropertyValue::StrongRefVector { .. }) {
            return Err(Error::NotAReference { pid: property.pid, expected: "a strong reference vector" });
        }
        let (stream, bytes) = self.read_index(owner, property)?;
        let r = VectorIndex::parse(bytes.as_slice());
        assert(named_child(self.cfb_spec(), owner.storage_spec().0, property.index_spec().unwrap(), stream.0));
        r
    }

    /// Reads a strong reference set's index.
    pub fn set_index(&self, owner: &Object, property: &Property) -> (r: Result<SetIndex>)
        requires
            self.wf(),
        ensures
            !(property.value is StrongRefSet) ==> r == Err::<SetIndex, Error>(
                Error::NotAReference { pid: property.pid, expected: "a strong reference set" }),
            r matches Ok(v) ==> property.index_spec() is Some
                && exists|c: u32| #[trigger] named_child(self.cfb_spec(), owner.storage_spec().0, property.index_spec().unwrap(), c)
                    && (stream_content(self.cfb_spec(), c) matches Ok(b)
                    && set_index_of(b) == Ok::<(u32, u32, u16, Seq<(u32, u32, KeyView)>), Error>(v.view_parts())),
            set_readable(self.cfb_spec(), owner.storage_spec().0, property) ==> r is Ok,
    {
        if !matches!(property.value, PropertyValue::StrongRefSet { .. }) {
            return Err(Error::NotAReference { pid: property.pid, expected: "a strong reference set" });
        }
        let (stream, bytes) = self.read_index(owner, property)?;
        let r = SetIndex::parse(bytes.as_slice());
        assert(named_child(self.cfb_spec(), owner.storage_spec().0, property.index_spec().unwrap(), stream.0));
        r
    }

    /// Reads a weak reference collection's index.
    ///
    /// An index declaring keys zero bytes wide cannot be split into keys and
    /// is reported as a key of that size.
    pub fn weak_ref_array(&self, owner: &Object, property: &Property) -> (r: Result<WeakRefArrayIndex>)
        requires
            self.wf(),
        ensures
            !(property.value is WeakRefArray) ==> r == Err::<WeakRefArrayIndex, Error>(
                Error::NotAReference { pid: property.pid, expected: "a weak reference collection" }),
            r matches Ok(v) ==> property.index_spec() is Some
                && exists|c: u32| #[trigger] named_child(self.cfb_spec(), owner.storage_spec().0, property.index_spec().unwrap(), c)
                    && (stream_content(self.cfb_spec(), c) matches Ok(b)
                    && weak_index_of(b) == Ok::<(u16, u16, Seq<KeyView>), Error>(v.view_parts())),
            weak_array_readable(self.cfb_spec(), owner.storage_spec().0, property) ==> r is Ok,
    {
        if !matches!(property.value, PropertyValue::WeakRefArray { .. }) {
            return Err(Error::NotAReference { pid: property.pid, expected: "a weak reference collection" });
        }
        let (stream, bytes) = self.read_index(owner, property)?;
        assert(named_child(self.cfb_spec(), owner.storage_spec().0, property.index_spec().unwrap(), stream.0));
        let r = WeakRefArrayIndex::parse(bytes.as_slice());
        r
    }

    /// Follows a strong reference to the object it names.
    pub fn strong_ref(&self, owner: &Object, property: &Property) -> (r: Result<Object>)
        requires
            self.wf(),
        ensures
            !(property.value is StrongRef) ==> r == Err::<Object, Error>(
                Error::NotAReference { pid: property.pid, expected: "a strong reference" }),
            r matches Ok(o) ==> property.value matches PropertyValue::StrongRef { name }
                && exists|c: u32| #[trigger] named_child(self.cfb_spec(), owner.storage_spec().0, name@, c)
                    && object_read(self.cfb_spec(), c, o),
            ref_readable(self.cfb_spec(), owner.storage_spec().0, property) ==> r is Ok,
    {
        let name = match &property.value {
            PropertyValue::StrongRef { name } => name,
            _ => { return Err(Error::NotAReference { pid: property.pid, expected: "a strong reference" }); },
        };
        let storage = self.require_child(owner.storage, name.as_str())?;
        let o = self.read_object(storage)?;
        assert(named_child(self.cfb_spec(), owner.storage_spec().0, name@, storage.0));
        Ok(o)
    }

    /// Follows a strong reference vector to its members, in order.
    pub fn strong_ref_vector(&self, owner: &Object, property: &Property) -> (r: Result<Vec<Object>>)
        requires
            self.wf(),
        ensures
            !(property.value is StrongRefVector) ==> r == Err::<Vec<Object>, Error>(
                Error::NotAReference { pid: property.pid, expected: "a strong reference vector" }),
            r matches Ok(objs) ==> vector_members(self.cfb_spec(), owner.storage_spec().0, property, objs@),
            vector_readable(self.cfb_spec(), owner.storage_spec().0, property) ==> r is Ok,
    {
        let index_name = match &property.value {
            PropertyValue::StrongRefVector { index_name } => index_name,
            _ => { return Err(Error::NotAReference { pid: property.pid, expected: "a strong reference vector" }); },
        };
        let index = self.vector_index(owner, property)?;
        let ghost v = index.view_parts();
        assert(index_read(self.cfb_spec(), owner.storage_spec().0, property, v));
        let ghost readable = vector_readable(self.cfb_spec(), owner.storage_spec().0, property);
        proof {
            if readable {
                let f = self.cfb_spec();
                let c = choose|c: u32| #[trigger] named_child(f, owner.storage_spec().0, property.index_spec().unwrap(), c)
                    && (stream_content(f, c) matches Ok(b)
                    && vector_index_of(b) == Ok::<(u32, u32, Seq<u32>), Error>(v));
                assert(named_child(f, owner.storage_spec().0, property.index_spec().unwrap(), c));
                assert(property.value->StrongRefVector_index_name == *index_name);
                lemma_vector_members_readable(f, owner.storage_spec().0, property, c, v);
            }
        }
        let mut members: Vec<Object> = Vec::new();
        let mut i: usize = 0;
        while i < index.local_keys.len()
            invariant
                self.wf(),
                property.value is StrongRefVector,
                property.value == (PropertyValue::StrongRefVector { index_name: *index_name }),
                index.view_parts() == v,
                readable == vector_readable(self.cfb_spec(), owner.storage_spec().0, property),
                readable ==> forall|j: int| 0 <= j < v.2.len() ==> #[trigger] member_readable(self.cfb_spec(),
                    owner.storage_spec().0, member_name(index_name@, v.2[j])),
                i <= index.local_keys@.len(),
                members@.len() == i,
                forall|j: int| 0 <= j < i ==> #[trigger] member_read(self.cfb_spec(), owner.storage_spec().0,
                    member_name(index_name@, index.local_keys@[j]), members@[j]),
            decreases index.local_keys@.len() - i,
        {
            let name = member_storage_name(index_name.as_str(), index.local_keys[i]);
            assert(name@ == member_name(index_name@, v.2[i as int]));
            assert(readable ==> member_readable(self.cfb_spec(), owner.storage_spec().0, name@));
            let storage = self.require_child(owner.storage, name.as_str())?;
            let o = self.read_object(storage)?;
            let ghost before = members@;
            members.push(o);
            proof {
                assert(named_child(self.cfb_spec(), owner.storage_spec().0, member_name(index_name@, index.local_keys@[i as int]), storage.0));
                assert(member_read(self.cfb_spec(), owner.storage_spec().0, member_name(index_name@, index.local_keys@[i as int]), o));
                assert forall|j: int| 0 <= j < i + 1 implies #[trigger] member_read(self.cfb_spec(), owner.storage_spec().0,
                    member_name(index_name@, index.local_keys@[j]), members@[j]) by {
                    if j < i {
                        assert(members@[j] == before[j]);
                    } else {
                        assert(members@[j] == o);
                    }
                }
            }
            i = i + 1;
        }
        Ok(members)
    }
}

impl AafFile {
    /// Follows a strong reference set to its members, each with its key.
    pub fn strong_ref_set(&self, owner: &Object, property: &Property) -> (r: Result<Vec<(RefKey, Object)>>)
        requires
            self.wf(),
        ensures
            !(property.value is StrongRefSet) ==> r == Err::<Vec<(RefKey, Object)>, Error>(
                Error::NotAReference { pid: property.pid, expected: "a strong reference set" }),
            r matches Ok(ms) ==> set_members(self.cfb_spec(), owner.storage_spec().0, property, ms@),
            set_readable(self.cfb_spec(), owner.storage_spec().0, property) ==> r is Ok,
    {
        let index_name = match &property.value {
            PropertyValue::StrongRefSet { index_name } => index_name,
            _ => { return Err(Error::NotAReference { pid: property.pid, expected: "a strong reference set" }); },
        };
        let index = self.set_index(owner, property)?;
        let ghost v = index.view_parts();
        assert(set_read(self.cfb_spec(), owner.storage_spec().0, property, v));
        let ghost readable = set_readable(self.cfb_spec(), owner.storage_spec().0, property);
        proof {
            if readable {
                let f = self.cfb_spec();
                let c = choose|c: u32| #[trigger] named_child(f, owner.storage_spec().0, property.index_spec().unwrap(), c)
                    && (stream_content(f, c) matches Ok(b)
                    && set_index_of(b) == Ok::<(u32, u32, u16, Seq<(u32, u32, KeyView)>), Error>(v));
                assert(named_child(f, owner.storage_spec().0, property.index_spec().unwrap(), c));
                assert(property.value->StrongRefSet_index_name == *index_name);
                lemma_set_members_readable(f, owner.storage_spec().0, property, c, v);
            }
        }
        let mut members: Vec<(RefKey, Object)> = Vec::new();
        let mut i: usize = 0;
        while i < index.entries.len()
            invariant
                self.wf(),
                property.value == (PropertyValue::StrongRefSet { index_name: *index_name }),
                index.view_parts() == v,
                set_read(self.cfb_spec(), owner.storage_spec().0, property, v),
                readable == set_readable(self.cfb_spec(), owner.storage_spec().0, property),
                readable ==> forall|j: int| 0 <= j < v.3.len() ==> #[trigger] member_readable(self.cfb_spec(),
                    owner.storage_spec().0, member_name(index_name@, v.3[j].0)),
                i <= index.entries@.len(),
                members@.len() == i,
                forall|j: int| #![trigger members@[j]] 0 <= j < i ==> members@[j].0 == index.entries@[j].key && member_read(self.cfb_spec(), owner.storage_spec().0,
                    member_name(index_name@, index.entries@[j].local_key), members@[j].1),
            decreases index.entries@.len() - i,
        {
            let entry = index.entries[i];
            assert(entry == index.entries@[i as int]);
            assert(v.3[i as int] == entry@);
            let name = member_storage_name(index_name.as_str(), entry.local_key);
            assert(name@ == member_name(index_name@, v.3[i as int].0));
            assert(readable ==> member_readable(self.cfb_spec(), owner.storage_spec().0, name@));
            let storage = self.require_child(owner.storage, name.as_str())?;
            let o = self.read_object(storage)?;
            let ghost before = members@;
            members.push((entry.key, o));
            proof {
                assert(named_child(self.cfb_spec(), owner.storage_spec().0, member_name(index_name@, entry.local_key), storage.0));
                assert(member_read(self.cfb_spec(), owner.storage_spec().0, member_name(index_name@, entry.local_key), o));
                assert forall|j: int| #![trigger members@[j]] 0 <= j < i + 1 implies members@[j].0 == index.entries@[j].key && member_read(self.cfb_spec(), owner.storage_spec().0,
                    member_name(index_name@, index.entries@[j].local_key), members@[j].1) by {
                    if j < i {
                        assert(members@[j] == before[j]);
                    } else {
                        assert(members@[j] == (entry.key, o));
                    }
                }
            }
            i = i + 1;
        }
        proof {
            assert forall|j: int| #![trigger members@[j]] 0 <= j < v.3.len() implies members@[j].0@ == v.3[j].2 && member_read(self.cfb_spec(), owner.storage_spec().0,
                member_name(index_name@, v.3[j].0), members@[j].1) by {
                assert(v.3[j] == index.entries@[j]@);
                assert(members@[j].0 == index.entries@[j].key);
            }
        }
        Ok(members)
    }

    /// The objects one property of `owner` owns, in the order it lists
    /// them; none for a property that is no strong reference.
    fn owned_objects(&self, owner: &Object, property: &Property) -> (r: Result<Vec<Object>>)
        requires
            self.wf(),
        ensures
            r matches Ok(objs) ==> group_of(self.cfb_spec(), owner.storage_spec().0, *property, objs@),
            group_readable(self.cfb_spec(), owner.storage_spec().0, *property) ==> r is Ok,
    {
        match property.format {
            PropertyFormat::StrongRef => {
                let o = self.strong_ref(owner, property)?;
                let mut v: Vec<Object> = Vec::new();
                v.push(o);
                proof {
                    assert(member_read(self.cfb_spec(), owner.storage_spec().0, property.value->StrongRef_name@, o));
                    assert(v@ =~= seq![o]);
                }
                Ok(v)
            },
            PropertyFormat::StrongRefVector => self.strong_ref_vector(owner, property),
            PropertyFormat::StrongRefSet => {
                let mut pairs = self.strong_ref_set(owner, property)?;
                let ghost all = pairs@;
                let n = pairs.len();
                let mut v: Vec<Object> = Vec::new();
                let mut m: usize = 0;
                assert(all.skip(0) =~= all);
                while pairs.len() > 0
                    invariant
                        n == all.len(),
                        m <= n,
                        pairs@ == all.skip(m as int),
                        v@ == member_objects(all.take(m as int)),
                    decreases pairs@.len(),
                {
                    let (_, o) = pairs.remove(0);
                    proof {
                        assert(all.skip(m as int)[0] == all[m as int]);
                        assert(all.skip(m + 1) =~= all.skip(m as int).drop_first());
                        assert(all.take(m + 1) =~= all.take(m as int).push(all[m as int]));
                        assert(member_objects(all.take(m + 1)) =~= member_objects(all.take(m as int)).push(o));
                    }
                    v.push(o);
                    m = m + 1;
                }
                proof {
                    assert(all.take(n as int) =~= all);
                    assert(set_members(self.cfb_spec(), owner.storage_spec().0, property, all));
                }
                Ok(v)
            },
            _ => Ok(Vec::new()),
        }
    }

    /// Every object this one owns, with the pid of the property that owns
    /// it, in the order the properties and their collections list them.
    pub fn children(&self, owner: &Object) -> (r: Result<Vec<(u16, Object)>>)
        requires
            self.wf(),
        ensures
            r matches Ok(out) ==> children_of(self.cfb_spec(), owner.storage_spec().0,
                owner.stream_spec().properties@, out@),
            r matches Ok(out) ==> forall|i: int| #![trigger out@[i]] 0 <= i < out@.len() ==> {
                &&& owned_by(self.cfb_spec(), owner.storage_spec().0, out@[i].1)
                &&& exists|j: int| 0 <= j < owner.stream_spec().properties@.len()
                    && (#[trigger] owner.stream_spec().properties@[j]).pid == out@[i].0
                    && owner.stream_spec().properties@[j].format.is_strong_spec()
            },
            (forall|j: int| 0 <= j < owner.stream_spec().properties@.len() ==> #[trigger] group_readable(self.cfb_spec(),
                owner.storage_spec().0, owner.stream_spec().properties@[j])) ==> r is Ok,
    {
        let props = owner.properties();
        let ghost f = self.cfb_spec();
        let ghost st = owner.storage_spec().0;
        let ghost ps = owner.stream_spec().properties@;
        let mut out: Vec<(u16, Object)> = Vec::new();
        let ghost mut groups: Seq<Seq<Object>> = Seq::empty();
        let mut k: usize = 0;
        assert(flatten(ps.take(0), groups) =~= Seq::<(u16, Object)>::empty());
        while k < props.len()
            invariant
                self.wf(),
                f == self.cfb_spec(),
                st == owner.storage_spec().0,
                props@ == ps,
                ps == owner.stream_spec().properties@,
                k <= ps.len(),
                groups.len() == k,
                forall|j: int| 0 <= j < k ==> #[trigger] group_of(f, st, ps[j], groups[j]),
                out@ == flatten(ps.take(k as int), groups),
                forall|i: int| #![trigger out@[i]] 0 <= i < out@.len() ==> {
                    &&& owned_by(f, st, out@[i].1)
                    &&& exists|j: int| 0 <= j < ps.len() && (#[trigger] ps[j]).pid == out@[i].0 && ps[j].format.is_strong_spec()
                },
            decreases ps.len() - k,
        {
            let property = &props[k];
            let mut objs = self.owned_objects(owner, property)?;
            let ghost all = objs@;
            proof { lemma_group_owned(f, st, *property, all); }
            let ghost before = out@;
            let n = objs.len();
            let mut i: usize = 0;
            assert(all.skip(0) =~= all);
            assert(tagged(property.pid, all.take(0)) =~= Seq::<(u16, Object)>::empty());
            while objs.len() > 0
                invariant
                    n == all.len(),
                    i <= n,
                    objs@ == all.skip(i as int),
                    out@ == before + tagged(property.pid, all.take(i as int)),
                    *property == ps[k as int],
                    k < ps.len(),
                    forall|a: int| 0 <= a < all.len() ==> owned_by(f, st, #[trigger] all[a]),
                    all.len() > 0 ==> property.format.is_strong_spec(),
                    forall|a: int| #![trigger out@[a]] 0 <= a < out@.len() ==> {
                        &&& owned_by(f, st, out@[a].1)
                        &&& exists|j: int| 0 <= j < ps.len() && (#[trigger] ps[j]).pid == out@[a].0 && ps[j].format.is_strong_spec()
                    },
                decreases objs@.len(),
            {
                let ghost prev = out@;
                let o = objs.remove(0);
                proof {
                    assert(all.skip(i as int)[0] == all[i as int]);
                    assert(all.skip(i + 1) =~= all.skip(i as int).drop_first());
                }
                out.push((property.pid, o));
                proof {
                    assert(tagged(property.pid, all.take(i + 1)) =~= tagged(property.pid, all.take(i as int)).push((property.pid, all[i as int])));
                    assert(out@ =~= before + tagged(property.pid, all.take(i + 1)));
                    assert forall|a: int| #![trigger out@[a]] 0 <= a < out@.len() implies {
                        &&& owned_by(f, st, out@[a].1)
                        &&& exists|j: int| 0 <= j < ps.len() && (#[trigger] ps[j]).pid == out@[a].0 && ps[j].format.is_strong_spec()
                    } by {
                        if a < prev.len() {
                            assert(out@[a] == prev[a]);
                        } else {
                            assert(out@[a] == (property.pid, all[i as int]));
                            assert(ps[k as int].pid == out@[a].0);
                        }
                    }
                }
                i = i + 1;
            }
            proof {
                assert(all.take(n as int) =~= all);
                let ng = groups.push(all);
                assert(ps.take(k + 1).drop_last() =~= ps.take(k as int));
                assert(ng.drop_last() =~= groups);
                assert(flatten(ps.take(k + 1), ng) == flatten(ps.take(k as int), groups) + tagged(ps[k as int].pid, all));
                assert forall|j: int| 0 <= j < k + 1 implies #[trigger] group_of(f, st, ps[j], ng[j]) by {
                    if j < k { assert(ng[j] == groups[j]); }
                }
                groups = ng;
            }
            k = k + 1;
        }
        proof {
            assert(ps.take(ps.len() as int) =~= ps);
            assert(children_of(f, st, ps, out@));
        }
        Ok(out)
    }
}

/// Whether `objs` are the members of a strong reference vector property of
/// storage `s`, in the order its index lists them.
pub open spec fn vector_members(f: CompoundFile, s: u32, property: &Property, objs: Seq<Object>) -> bool {
    &&& property.value is StrongRefVector
    &&& exists|v: (u32, u32, Seq<u32>)| #[trigger] index_read(f, s, property, v)
        && objs.len() == v.2.len()
        && forall|j: int| 0 <= j < v.2.len() ==> #[trigger] member_read(f, s,
            member_name(property.value->StrongRefVector_index_name@, v.2[j]), objs[j])
}

/// Whether `ms` are the members of a strong reference set property of
/// storage `s`, each with its key, in the order its index lists them.
pub open spec fn set_members(f: CompoundFile, s: u32, property: &Property, ms: Seq<(RefKey, Object)>) -> bool {
    &&& property.value is StrongRefSet
    &&& exists|v: (u32, u32, u16, Seq<(u32, u32, KeyView)>)| #[trigger] set_read(f, s, property, v)
        && ms.len() == v.3.len()
        && forall|j: int| #![trigger ms[j]] 0 <= j < v.3.len() ==> ms[j].0@ == v.3[j].2 && member_read(f, s,
            member_name(property.value->StrongRefSet_index_name@, v.3[j].0), ms[j].1)
}

/// The members of a vector are stored in the storage that owns it.
proof fn lemma_vector_owned(f: CompoundFile, s: u32, property: &Property, objs: Seq<Object>)
    requires
        vector_members(f, s, property, objs),
    ensures
        forall|i: int| 0 <= i < objs.len() ==> owned_by(f, s, #[trigger] objs[i]),
{
    let v = choose|v: (u32, u32, Seq<u32>)| #[trigger] index_read(f, s, property, v)
        && objs.len() == v.2.len()
        && forall|j: int| 0 <= j < v.2.len() ==> #[trigger] member_read(f, s,
            member_name(property.value->StrongRefVector_index_name@, v.2[j]), objs[j]);
    assert forall|i: int| 0 <= i < objs.len() implies owned_by(f, s, #[trigger] objs[i]) by {
        assert(member_read(f, s, member_name(property.value->StrongRefVector_index_name@, v.2[i]), objs[i]));
    }
}

/// The members of a set are stored in the storage that owns it.
proof fn lemma_set_owned(f: CompoundFile, s: u32, property: &Property, ms: Seq<(RefKey, Object)>)
    requires
        set_members(f, s, property, ms),
    ensures
        forall|i: int| 0 <= i < ms.len() ==> owned_by(f, s, (#[trigger] ms[i]).1),
{
    let v = choose|v: (u32, u32, u16, Seq<(u32, u32, KeyView)>)| #[trigger] set_read(f, s, property, v)
        && ms.len() == v.3.len()
        && forall|j: int| #![trigger ms[j]] 0 <= j < v.3.len() ==> ms[j].0@ == v.3[j].2 && member_read(f, s,
            member_name(property.value->StrongRefSet_index_name@, v.3[j].0), ms[j].1);
    assert forall|i: int| 0 <= i < ms.len() implies owned_by(f, s, (#[trigger] ms[i]).1) by {
        assert(member_read(f, s, member_name(property.value->StrongRefSet_index_name@, v.3[i].0), ms[i].1));
    }
}

/// Whether `p` and `o` are an entry of a walk: an object below the root,
/// as its storage holds it, with the storage's path.
pub open spec fn walked(f: CompoundFile, p: String, o: Object) -> bool {
    &&& rooted(f, o.storage_spec().0 as int)
    &&& object_read(f, o.storage_spec().0, o)
    &&& p@ == entry_path(f, o.storage_spec().0 as int)
}

/// Walks one after another.
pub open spec fn concat_walks(parts: Seq<Seq<(String, Object)>>) -> Seq<(String, Object)>
    decreases parts.len(),
{
    if parts.len() == 0 {
        Seq::empty()
    } else {
        concat_walks(parts.drop_last()) + parts.last()
    }
}

/// Whether `out` is a depth-first walk from object `o`, at most `fuel`
/// levels deep: `o` first with its storage's path, then, for every object it
/// owns in the order [`AafFile::children`] lists them, that object's own
/// walk.
pub open spec fn walk_of(f: CompoundFile, o: Object, out: Seq<(String, Object)>, fuel: nat) -> bool
    decreases fuel,
{
    &&& fuel > 0
    &&& out.len() > 0
    &&& out[0].1 == o
    &&& out[0].0@ == entry_path(f, o.storage_spec().0 as int)
    &&& exists|kids: Seq<(u16, Object)>, parts: Seq<Seq<(String, Object)>>|
        #![trigger children_of(f, o.storage_spec().0, o.stream_spec().properties@, kids), concat_walks(parts)]
        children_of(f, o.storage_spec().0, o.stream_spec().properties@, kids)
        && parts.len() == kids.len()
        && (forall|i: int| 0 <= i < kids.len() ==> walk_of(f, (#[trigger] kids[i]).1, parts[i], (fuel - 1) as nat))
        && out == seq![out[0]] + concat_walks(parts)
}

/// Whether object `o` and, at most `fuel` levels down, every object it owns
/// can be read: each of its properties' objects reads, and so does each of
/// their own trees.
pub open spec fn tree_readable(f: CompoundFile, o: Object, fuel: nat) -> bool
    decreases fuel,
{
    &&& fuel > 0
    &&& forall|j: int| 0 <= j < o.stream_spec().properties@.len() ==> #[trigger] group_readable(f,
        o.storage_spec().0, o.stream_spec().properties@[j])
    &&& forall|kids: Seq<(u16, Object)>| #[trigger] children_of(f, o.storage_spec().0, o.stream_spec().properties@, kids)
        ==> forall|i: int| 0 <= i < kids.len() ==> tree_readable(f, (#[trigger] kids[i]).1, (fuel - 1) as nat)
}

impl AafFile {
    /// Appends `object` and, depth first, every object it owns.
    fn walk_into(&self, object: Object, out: &mut Vec<(String, Object)>) -> (r: Result<()>)
        requires
            self.wf(),
            rooted(self.cfb_spec(), object.storage_spec().0 as int),
            object_read(self.cfb_spec(), object.storage_spec().0, object),
        ensures
            r is Ok ==> final(out)@.len() > old(out)@.len()
                && final(out)@[old(out)@.len() as int].1 == object
                && (forall|i: int| 0 <= i < old(out)@.len() ==> #[trigger] final(out)@[i] == old(out)@[i])
                && (forall|i: int| old(out)@.len() <= i < final(out)@.len() ==> walked(self.cfb_spec(), (#[trigger] final(out)@[i]).0, final(out)@[i].1))
                && walk_of(self.cfb_spec(), object, final(out)@.subrange(old(out)@.len() as int, final(out)@.len() as int),
                    (self.cfb_spec().entries_view().len() - self.cfb_spec().depth_view()[object.storage_spec().0 as int]) as nat),
            tree_readable(self.cfb_spec(), object,
                (self.cfb_spec().entries_view().len() - self.cfb_spec().depth_view()[object.storage_spec().0 as int]) as nat)
                ==> r is Ok,
        decreases self.cfb_spec().entries_view().len() - self.cfb_spec().depth_view()[object.storage_spec().0 as int],
    {
        proof { self.cfb.lemma_entry_ids(); }
        let ghost f = self.cfb_spec();
        let ghost s = object.storage_spec().0;
        let path = match self.cfb.path(object.storage) {
            Ok(p) => p,
            Err(e) => { return Err(Error::Cfb(e)); },
        };
        let mut kids = self.children(&object)?;
        let ghost start = out@.len();
        let ghost first = (path, object);
        out.push((path, object));
        let ghost all = kids@;
        let ghost mut m: int = 0;
        let ghost fuel: nat = (f.entries_view().len() - f.depth_view()[s as int]) as nat;
        let ghost readable = tree_readable(f, object, fuel);
        assert(readable ==> forall|i: int| 0 <= i < all.len() ==> tree_readable(f, (#[trigger] all[i]).1, (fuel - 1) as nat));
        let ghost mut parts: Seq<Seq<(String, Object)>> = Seq::empty();
        assert(all.skip(0) =~= all);
        assert(out@.subrange(start as int, out@.len() as int) =~= seq![first] + concat_walks(parts));
        while kids.len() > 0
            invariant
                fuel == (f.entries_view().len() - f.depth_view()[s as int]) as nat,
                f.depth_view()[s as int] < f.entries_view().len(),
                readable == tree_readable(f, object, fuel),
                readable ==> forall|i: int| 0 <= i < all.len() ==> tree_readable(f, (#[trigger] all[i]).1, (fuel - 1) as nat),
                children_of(f, s, object.stream_spec().properties@, all),
                parts.len() == m,
                forall|i: int| 0 <= i < m ==> walk_of(f, (#[trigger] all[i]).1, parts[i], (fuel - 1) as nat),
                out@.subrange(start as int, out@.len() as int) == seq![first] + concat_walks(parts),
                self.wf(),
                f == self.cfb_spec(),
                rooted(f, s as int),
                f.entries_view()[s as int].entry_type.storage(),
                kids@ == all.skip(m),
                0 <= m <= all.len(),
                forall|i: int| 0 <= i < all.len() ==> owned_by(f, s, (#[trigger] all[i]).1),
                out@.len() > start,
                start == old(out)@.len(),
                out@[start as int] == first,
                first.1 == object,
                s == object.storage_spec().0,
                forall|i: int| 0 <= i < start ==> #[trigger] out@[i] == old(out)@[i],
                forall|i: int| start <= i < out@.len() ==> walked(f, (#[trigger] out@[i]).0, out@[i].1),
            decreases kids@.len(),
        {
            let (_, child) = kids.remove(0);
            proof {
                assert(child == all[m].1);
                assert(owned_by(f, s, all[m].1));
                let name = choose|name: Seq<char>| #[trigger] member_read(f, s, name, child);
                let c = choose|c: u32| #[trigger] named_child(f, s, name, c) && object_read(f, c, child);
                f.lemma_member_parent(s, c);
                assert(child.storage_spec().0 == c);
                assert(f.depth_view()[child.storage_spec().0 as int] == f.depth_view()[s as int] + 1);
                assert(f.depth_view()[child.storage_spec().0 as int] < f.entries_view().len());
                assert(readable ==> tree_readable(f, child, (fuel - 1) as nat));
                assert(rooted(f, child.storage_spec().0 as int));
                assert(object_read(f, child.storage_spec().0, child));
                assert(all.skip(m + 1) =~= all.skip(m).drop_first());
                m = m + 1;
            }
            let ghost before = out@;
            self.walk_into(child, out)?;
            proof {
                let seg = out@.subrange(before.len() as int, out@.len() as int);
                assert(walk_of(f, child, seg, (fuel - 1) as nat));
                let np = parts.push(seg);
                assert(np.drop_last() =~= parts);
                assert(out@.subrange(start as int, out@.len() as int) =~= before.subrange(start as int, before.len() as int) + seg);
                assert(out@.subrange(start as int, out@.len() as int) =~= seq![first] + concat_walks(np));
                assert forall|i: int| 0 <= i < m implies walk_of(f, (#[trigger] all[i]).1, np[i], (fuel - 1) as nat) by {
                    if i < m - 1 { assert(np[i] == parts[i]); }
                }
                parts = np;
            }
            proof {
                assert forall|i: int| 0 <= i < start implies #[trigger] out@[i] == old(out)@[i] by {
                    assert(out@[i] == before[i]);
                }
                assert forall|i: int| start <= i < out@.len() implies walked(f, (#[trigger] out@[i]).0, out@[i].1) by {
                    if i < before.len() {
                        assert(out@[i] == before[i]);
                    }
                }
                assert(out@[start as int] == before[start as int]);
            }
        }
        proof {
            assert(all.len() == m);
            let seg = out@.subrange(start as int, out@.len() as int);
            assert(seg[0] == first);
            assert(seg =~= seq![seg[0]] + concat_walks(parts));
            assert(walk_of(f, object, seg, fuel));
        }
        Ok(())
    }

    /// Every object in the file, depth first from the root, each with the
    /// path of its storage.
    ///
    /// An object's children come after it, in the order its properties and
    /// their collections list them.
    pub fn walk(&self) -> (r: Result<Vec<(String, Object)>>)
        requires
            self.wf(),
        ensures
            r matches Ok(out) ==> out@.len() > 0 && object_read(self.cfb_spec(), 0, out@[0].1)
                && forall|i: int| 0 <= i < out@.len() ==> walked(self.cfb_spec(), (#[trigger] out@[i]).0, out@[i].1),
            r matches Ok(out) ==> walk_of(self.cfb_spec(), out@[0].1, out@,
                (self.cfb_spec().entries_view().len() - self.cfb_spec().depth_view()[0]) as nat),
            object_readable(self.cfb_spec(), 0) && (forall|root: Object| #[trigger] object_read(self.cfb_spec(), 0, root)
                ==> tree_readable(self.cfb_spec(), root,
                    (self.cfb_spec().entries_view().len() - self.cfb_spec().depth_view()[0]) as nat)) ==> r is Ok,
    {
        proof { self.cfb.lemma_entry_ids(); }
        let root = self.root()?;
        let mut out: Vec<(String, Object)> = Vec::new();
        self.walk_into(root, &mut out)?;
        assert(out@.subrange(0, out@.len() as int) =~= out@);
        Ok(out)
    }
}

/// Whether `v` is what the set index a property names reads as.
pub open spec fn set_read(f: CompoundFile, s: u32, property: &Property, v: (u32, u32, u16, Seq<(u32, u32, KeyView)>)) -> bool {
    property.index_spec() is Some && exists|c: u32| #[trigger] named_child(f, s, property.index_spec().unwrap(), c)
        && (stream_content(f, c) matches Ok(b) && set_index_of(b) == Ok::<(u32, u32, u16, Seq<(u32, u32, KeyView)>), Error>(v))
}

/// Whether `o` is an object stored in an entry of storage `s`.
pub open spec fn owned_by(f: CompoundFile, s: u32, o: Object) -> bool {
    exists|name: Seq<char>| #[trigger] member_read(f, s, name, o)
}

/// Whether `v` is what the vector index a property names reads as.
pub open spec fn index_read(f: CompoundFile, s: u32, property: &Property, v: (u32, u32, Seq<u32>)) -> bool {
    property.index_spec() is Some && exists|c: u32| #[trigger] named_child(f, s, property.index_spec().unwrap(), c)
        && (stream_content(f, c) matches Ok(b) && vector_index_of(b) == Ok::<(u32, u32, Seq<u32>), Error>(v))
}

/// The name of the index stream a property names, where it names one.
pub open spec fn index_text(property: &Property) -> Seq<char> {
    property.index_spec().unwrap()
}

/// Whether `o` is the object in the entry of storage `s` with this name.
pub open spec fn member_read(f: CompoundFile, s: u32, name: Seq<char>, o: Object) -> bool {
    exists|c: u32| #[trigger] named_child(f, s, name, c) && object_read(f, c, o)
}

/// The storage name of the member of a collection with this local key.
pub open spec fn member_name(index_name: Seq<char>, key: u32) -> Seq<char> {
    index_name + seq!['{'] + hex_number(key as nat) + seq!['}']
}

} // verus!
