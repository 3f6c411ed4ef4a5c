//! Reading an AAF file by name rather than by number.
//!
//! Everything below this works in identifiers: a property is a `u16`, a class
//! is a 16-byte AUID, and the two are joined by the meta dictionary. [`Aaf`]
//! holds a file and its dictionary together so the same work can be written
//! the way people talk about AAF: the `Mobs` of the content storage, the
//! `Slots` of a mob, the `Segment` of a slot.
//!
//! # Classes, not types
//!
//! AAF's classes form an inheritance tree, and much of reading a file is
//! asking what kind of thing an object is: a `SourceClip` is a
//! `SourceReference` is a `Segment` is a `Component`. [`Aaf::is_a`] answers
//! that the way the format means it, by walking the chain.

use vstd::prelude::*;

use crate::cfb::file::CompoundFile;
use crate::error::{Error, Result};
use crate::metadict::{class_values, first_prop, found_in_chain, inherited, lemma_first_prop, prop_values, ClassDef,
    MetaDictionary, PropertyDef};
use crate::mob_id::MobId;
use crate::object::{
    named_child, object_read, object_readable, ref_readable, set_members, set_readable, vector_members, vector_readable,
    AafFile, Object,
};
use crate::property::{Property, PropertyValue, RefKey};
use crate::text::{push_str, same_text};
use crate::value::{decode_model, ints_fit, value_model, Value, ValueModel};

verus! {

/// An AAF file and the definitions it is read with.
pub struct Aaf {
    file: AafFile,
    metadict: MetaDictionary,
}

/// The pid of the first of `props` with this name.
pub open spec fn named_pid(props: Seq<PropertyDef>, name: Seq<char>) -> Option<u16>
    decreases props.len(),
{
    if props.len() == 0 {
        None
    } else if props[0].name@ == name {
        Some(props[0].pid)
    } else {
        named_pid(props.drop_first(), name)
    }
}

/// Whether a chain of classes holds the class with this identifier.
pub open spec fn has_class(chain: Seq<ClassDef>, auid: Seq<u8>) -> bool {
    exists|i: int| 0 <= i < chain.len() && (#[trigger] chain[i]).auid@ == auid
}

/// The objects of a set's members, in the order the set lists them.
pub open spec fn set_objects(ms: Seq<(RefKey, Object)>) -> Seq<Object> {
    ms.map_values(|m: (RefKey, Object)| m.1)
}

/// Whether `objs` are what property `p` of storage `s` holds: a vector's or
/// a set's members in the order its index lists them, or the one object a
/// single strong reference names.
pub open spec fn held_by(f: CompoundFile, s: u32, p: Property, objs: Seq<Object>) -> bool {
    match p.value {
        PropertyValue::StrongRefVector { .. } => vector_members(f, s, &p, objs),
        PropertyValue::StrongRefSet { .. } => exists|ms: Seq<(RefKey, Object)>| #[trigger] set_members(f, s, &p, ms)
            && objs == set_objects(ms),
        PropertyValue::StrongRef { name } => objs.len() == 1 && exists|c: u32| #[trigger] named_child(f, s, name@, c)
            && object_read(f, c, objs[0]),
        _ => false,
    }
}

/// Whether a collection property of storage `s` can be read whole: a
/// single strong reference, a vector or a set whose members are all
/// readable objects.
pub open spec fn collection_readable(f: CompoundFile, s: u32, p: &Property) -> bool {
    ref_readable(f, s, p) || vector_readable(f, s, p) || set_readable(f, s, p)
}

/// An optional decoded value as plain data: `None` for a value that is not
/// there.
pub open spec fn found_model(r: Result<Option<Value>>) -> Option<Result<ValueModel>> {
    match r {
        Ok(None) => None,
        Ok(Some(v)) => Some(Ok(value_model(v))),
        Err(e) => Some(Err(e)),
    }
}

/// The text a value reads as: a string's, or an enumeration element's name.
pub open spec fn model_text(m: ValueModel) -> Option<Seq<char>> {
    match m {
        ValueModel::Text(s) => Some(s),
        ValueModel::Enum(_, n) => n,
        ValueModel::ExtEnum(_, n) => n,
        _ => None,
    }
}

impl Aaf {
    /// The file underneath.
    pub closed spec fn file_spec(&self) -> AafFile {
        self.file
    }

    /// The definitions the file is read with.
    pub closed spec fn metadict_spec(&self) -> MetaDictionary {
        self.metadict
    }

    /// The file was opened whole and its dictionary holds no key twice.
    pub open spec fn wf(&self) -> bool {
        self.file_spec().wf() && self.metadict_spec().wf()
    }

    /// Every integer type of the dictionary is at most eight bytes wide.
    pub open spec fn decodable(&self) -> bool {
        ints_fit(self.metadict_spec().type_map())
    }

    /// The compound file underneath.
    pub open spec fn cfb_view(&self) -> CompoundFile {
        self.file_spec().cfb_spec()
    }

    /// What an object's class is called in error messages: its name, or `?`
    /// where the dictionary does not define it.
    pub open spec fn class_label(&self, o: Object) -> Seq<char> {
        let m = self.metadict_spec().class_map();
        if m.contains_key(o.class_spec()@) { m[o.class_spec()@].name@ } else { "?"@ }
    }

    /// Every property an object's class defines, its own and inherited.
    pub open spec fn defined(&self, o: Object) -> Seq<PropertyDef> {
        inherited(self.metadict_spec().lineage(o.class_spec()@))
    }

    /// The pid a named property has on an object's class.
    pub open spec fn pid_of(&self, o: Object, name: Seq<char>) -> Option<u16> {
        named_pid(self.defined(o), name)
    }

    /// Whether `e` says that an object's class defines no property of this
    /// name.
    pub open spec fn undefined(&self, o: Object, name: Seq<char>, e: Error) -> bool {
        e matches Error::UndefinedProperty { class, property } && class@ == self.class_label(o) && property@ == name
    }

    /// What reading a named property's value gives: `None` where the class
    /// does not define it; `Some(None)` where the object does not carry it;
    /// else what it decodes to with the type its definition declares.
    pub open spec fn value_spec(&self, o: Object, name: Seq<char>) -> Option<Option<Result<ValueModel>>> {
        match self.pid_of(o, name) {
            None => None,
            Some(pid) => match first_prop(o.stream_spec().properties@, pid) {
                None => Some(None),
                Some(p) => match found_in_chain(self.metadict_spec().lineage(o.class_spec()@), pid) {
                    None => None,
                    Some(def) => Some(Some(decode_model(self.metadict_spec().type_map(), def.type_id, p))),
                },
            },
        }
    }

    /// Whether `objs` are what a named collection of an object holds:
    /// nothing where the object does not carry it.
    pub open spec fn holds(&self, o: Object, name: Seq<char>, objs: Seq<Object>) -> bool {
        match self.pid_of(o, name) {
            None => false,
            Some(pid) => match first_prop(o.stream_spec().properties@, pid) {
                None => objs.len() == 0,
                Some(p) => held_by(self.cfb_view(), o.storage_spec().0, p, objs),
            },
        }
    }

    /// Whether `c` is the object a named single strong reference of `o`
    /// points at.
    pub open spec fn holds_one(&self, o: Object, name: Seq<char>, c: Object) -> bool {
        match self.pid_of(o, name) {
            None => false,
            Some(pid) => match first_prop(o.stream_spec().properties@, pid) {
                None => false,
                Some(p) => p.value is StrongRef && held_by(self.cfb_view(), o.storage_spec().0, p, seq![c]),
            },
        }
    }

    /// What reading a named collection of an object gives: an error where
    /// the class does not define it or it is no strong reference, nothing
    /// where the object does not carry it, else what it holds where it can
    /// be read.
    pub open spec fn children_result(&self, o: Object, name: Seq<char>, r: Result<Vec<Object>>) -> bool {
        match self.pid_of(o, name) {
            None => r matches Err(e) && self.undefined(o, name, e),
            Some(pid) => match first_prop(o.stream_spec().properties@, pid) {
                None => r matches Ok(v) && v@.len() == 0,
                Some(p) => if p.value is StrongRefVector || p.value is StrongRefSet || p.value is StrongRef {
                    &&& r matches Ok(v) ==> self.holds(o, name, v@)
                    &&& collection_readable(self.cfb_view(), o.storage_spec().0, &p) ==> r is Ok
                } else {
                    r == Err::<Vec<Object>, Error>(
                        Error::NotAReference { pid, expected: "a collection of strong references" })
                },
            },
        }
    }

    /// The property an object's name is read from: `Name` where its class
    /// defines it, else `SlotName` where it defines that.
    pub open spec fn name_property(&self, o: Object) -> Option<Seq<char>> {
        if self.pid_of(o, "Name"@) is Some {
            Some("Name"@)
        } else if self.pid_of(o, "SlotName"@) is Some {
            Some("SlotName"@)
        } else {
            None
        }
    }

    /// Whether a named single strong reference of `o` is there and points at
    /// a readable object.
    pub open spec fn child_readable(&self, o: Object, name: Seq<char>) -> bool {
        match self.pid_of(o, name) {
            None => false,
            Some(pid) => match first_prop(o.stream_spec().properties@, pid) {
                None => false,
                Some(p) => ref_readable(self.cfb_view(), o.storage_spec().0, &p),
            },
        }
    }

    /// Whether a named collection of `o` is defined and, where `o` carries
    /// it, can be read whole.
    pub open spec fn collection_ok(&self, o: Object, name: Seq<char>) -> bool {
        match self.pid_of(o, name) {
            None => false,
            Some(pid) => match first_prop(o.stream_spec().properties@, pid) {
                None => true,
                Some(p) => collection_readable(self.cfb_view(), o.storage_spec().0, &p),
            },
        }
    }

    /// Whether a mob's `UsageCode` is defined and, where the mob carries it,
    /// decodes.
    pub open spec fn usage_decodes(&self, m: Object) -> bool {
        self.value_spec(m, "UsageCode"@) matches Some(x) && !(x matches Some(Err(_)))
    }

    /// Whether every composition mob of the file has a usage code that
    /// decodes.
    pub open spec fn usages_decode(&self) -> bool {
        forall|ms: Seq<Object>| #[trigger] self.mobs_read(ms) ==> forall|j: int|
            0 <= j < self.of_kind(ms, "CompositionMob"@).len() ==> #[trigger] self.usage_decodes(self.of_kind(ms, "CompositionMob"@)[j])
    }

    /// Whether the root object and the header it points at can be read.
    pub open spec fn header_readable(&self) -> bool {
        &&& object_readable(self.cfb_view(), 0)
        &&& forall|root: Object| #[trigger] object_read(self.cfb_view(), 0, root) ==> self.child_readable(root, "Header"@)
    }

    /// Whether the header and the content storage it points at can be read.
    pub open spec fn content_readable(&self) -> bool {
        &&& self.header_readable()
        &&& forall|h: Object| #[trigger] self.header_read(h) ==> self.child_readable(h, "Content"@)
    }

    /// Whether the content storage and every mob in it can be read.
    pub open spec fn mobs_readable(&self) -> bool {
        &&& self.content_readable()
        &&& forall|c: Object| #[trigger] self.content_read(c) ==> self.collection_ok(c, "Mobs"@)
    }

    /// Whether `h` is the file's header.
    pub open spec fn header_read(&self, h: Object) -> bool {
        exists|root: Object| #[trigger] object_read(self.cfb_view(), 0, root) && self.holds_one(root, "Header"@, h)
    }

    /// Whether `c` is the file's content storage.
    pub open spec fn content_read(&self, c: Object) -> bool {
        exists|h: Object| #[trigger] self.header_read(h) && self.holds_one(h, "Content"@, c)
    }

    /// Whether `ms` are the file's mobs.
    pub open spec fn mobs_read(&self, ms: Seq<Object>) -> bool {
        exists|c: Object| #[trigger] self.content_read(c) && self.holds(c, "Mobs"@, ms)
    }

    /// Whether an object is of the named class or of one that inherits from
    /// it.
    pub open spec fn is_a_spec(&self, o: Object, class_name: Seq<char>) -> bool {
        let d = self.metadict_spec();
        &&& d.class_names().contains_key(class_name)
        &&& d.class_map().contains_key(d.class_names()[class_name])
        &&& has_class(d.lineage(o.class_spec()@), d.class_map()[d.class_names()[class_name]].auid@)
    }

    /// The objects of `ms` of the named class, in order.
    pub open spec fn of_kind(&self, ms: Seq<Object>, class_name: Seq<char>) -> Seq<Object>
        decreases ms.len(),
    {
        if ms.len() == 0 {
            Seq::empty()
        } else {
            let rest = self.of_kind(ms.drop_last(), class_name);
            if self.is_a_spec(ms.last(), class_name) { rest.push(ms.last()) } else { rest }
        }
    }

    /// Whether a mob is used at the top level: its `UsageCode` reads as
    /// `Usage_TopLevel`.
    pub open spec fn top_level(&self, m: Object) -> bool {
        self.value_spec(m, "UsageCode"@) matches Some(Some(Ok(v))) && model_text(v) == Some("Usage_TopLevel"@)
    }

    /// The mobs of `ms` that are used at the top level, in order.
    pub open spec fn top_level_of(&self, ms: Seq<Object>) -> Seq<Object>
        decreases ms.len(),
    {
        if ms.len() == 0 {
            Seq::empty()
        } else {
            let rest = self.top_level_of(ms.drop_last());
            if self.top_level(ms.last()) { rest.push(ms.last()) } else { rest }
        }
    }

    /// Whether a mob carries a `UsageCode` whose decoded text is exactly
    /// `Usage_TopLevel`.
    pub open spec fn used_at_top_level(&self, m: Object) -> bool {
        exists|v: ValueModel| #[trigger] self.value_spec(m, "UsageCode"@) == Some(Some(Ok::<ValueModel, Error>(v)))
            && model_text(v) == Some("Usage_TopLevel"@)
    }

    /// Every mob picked as top level carries a `UsageCode` property whose
    /// decoded text is exactly `Usage_TopLevel`: a mob without one, or with
    /// another, is never picked.
    pub proof fn lemma_top_level_usage(&self, ms: Seq<Object>)
        ensures
            forall|i: int| 0 <= i < self.top_level_of(ms).len() ==> self.used_at_top_level(#[trigger] self.top_level_of(ms)[i]),
        decreases ms.len(),
    {
        if ms.len() > 0 {
            self.lemma_top_level_usage(ms.drop_last());
            let rest = self.top_level_of(ms.drop_last());
            if self.top_level(ms.last()) {
                let v = self.value_spec(ms.last(), "UsageCode"@)->Some_0->Some_0->Ok_0;
                assert(self.value_spec(ms.last(), "UsageCode"@) == Some(Some(Ok::<ValueModel, Error>(v))));
                assert forall|i: int| 0 <= i < self.top_level_of(ms).len() implies self.used_at_top_level(#[trigger] self.top_level_of(ms)[i]) by {
                    if i < rest.len() {
                        assert(self.top_level_of(ms)[i] == rest[i]);
                    }
                }
            } else {
                assert(self.top_level_of(ms) == rest);
            }
        }
    }

    /// Opens a file from its bytes and reads the definitions that apply to
    /// it.
    ///
    /// Fails if the bytes are not an AAF file, or if its meta dictionary
    /// cannot be read.
    pub fn open(data: Vec<u8>) -> (r: Result<Self>)
        ensures
            r matches Ok(a) ==> a.wf() && a.cfb_view().bytes() == data@
                && crate::metadict::dictionary_read(a.cfb_view(), a.metadict_spec()),
            r matches Err(e) ==> (e matches Error::Cfb(c) && crate::cfb::file::open_fault(data@, c))
                || exists|f: CompoundFile| #[trigger] crate::cfb::file::opened_from(data@, f) && f.wf()
                    && !crate::metadict::metadict_readable(f),
    {
        let file = AafFile::open(data)?;
        let metadict = MetaDictionary::read(&file)?;
        Ok(Self { file, metadict })
    }

    /// The definitions this file is read with.
    pub fn metadict(&self) -> (r: &MetaDictionary)
        ensures
            *r == self.metadict_spec(),
    {
        &self.metadict
    }

    /// The file underneath, for reading by identifier.
    pub fn file(&mut self) -> (r: &mut AafFile)
        ensures
            *r == old(self).file_spec(),
            final(self).file_spec() == *final(r),
            final(self).metadict_spec() == old(self).metadict_spec(),
    {
        &mut self.file
    }

    /// The name of an object's class, if the dictionary defines it.
    pub fn class_name(&self, object: &Object) -> (r: Option<&str>)
        requires
            self.wf(),
        ensures
            match r {
                Some(s) => self.metadict_spec().class_map().contains_key(object.class_spec()@)
                    && s@ == self.metadict_spec().class_map()[object.class_spec()@].name@,
                None => !self.metadict_spec().class_map().contains_key(object.class_spec()@),
            },
    {
        match self.metadict.class(object.class_id()) {
            Some(class) => Some(class.name.as_str()),
            None => None,
        }
    }

    /// Whether an object is of this class, or of one that inherits from it.
    ///
    /// This is what AAF means by an object's kind: a `SourceClip` is a
    /// `Segment`, because `Segment` is somewhere up its inheritance chain.
    pub fn is_a(&self, object: &Object, class_name: &str) -> (r: bool)
        requires
            self.wf(),
        ensures
            r == self.is_a_spec(*object, class_name@),
    {
        let wanted = match self.metadict.class_named(class_name) {
            Some(w) => w,
            None => { return false; },
        };
        let chain = self.metadict.chain(object.class_id());
        let ghost cv = class_values(chain@);
        assert(cv == self.metadict_spec().lineage(object.class_spec()@));
        let ghost w = self.metadict_spec().class_map()[self.metadict_spec().class_names()[class_name@]];
        assert(*wanted == w);
        let mut i: usize = 0;
        while i < chain.len()
            invariant
                i <= chain@.len(),
                cv == class_values(chain@),
                cv == self.metadict_spec().lineage(object.class_spec()@),
                *wanted == w,
                w == self.metadict_spec().class_map()[self.metadict_spec().class_names()[class_name@]],
                self.metadict_spec().class_names().contains_key(class_name@),
                self.metadict_spec().class_map().contains_key(self.metadict_spec().class_names()[class_name@]),
                forall|j: int| 0 <= j < i ==> (#[trigger] cv[j]).auid@ != wanted.auid@,
            decreases chain@.len() - i,
        {
            assert(cv[i as int] == *chain@[i as int]);
            if chain[i].auid == wanted.auid {
                assert(has_class(cv, wanted.auid@)) by {
                    assert(cv[i as int].auid@ == wanted.auid@);
                }
                return true;
            }
            i = i + 1;
        }
        false
    }

    /// The error for a property name an object's class does not define.
    fn undefined_error(&self, object: &Object, name: &str) -> (e: Error)
        requires
            self.wf(),
        ensures
            self.undefined(*object, name@, e),
    {
        let mut class = String::new();
        match self.class_name(object) {
            Some(n) => push_str(&mut class, n),
            None => push_str(&mut class, "?"),
        }
        let mut property = String::new();
        push_str(&mut property, name);
        proof {
            assert(class@ =~= self.class_label(*object));
            assert(property@ =~= name@);
        }
        Error::UndefinedProperty { class, property }
    }

    /// The identifier a named property has on this object's class.
    ///
    /// Fails if the class does not define a property of that name, which
    /// means the name is wrong or the object is not the kind expected.
    pub fn pid(&self, object: &Object, name: &str) -> (r: Result<u16>)
        requires
            self.wf(),
        ensures
            match self.pid_of(*object, name@) {
                Some(p) => r == Ok::<u16, Error>(p),
                None => r matches Err(e) && self.undefined(*object, name@, e),
            },
    {
        let all = self.metadict.all_properties(object.class_id());
        let ghost pv = prop_values(all@);
        let mut i: usize = 0;
        assert(pv.skip(0) =~= pv);
        while i < all.len()
            invariant
                i <= all@.len(),
                pv == prop_values(all@),
                pv == self.defined(*object),
                named_pid(pv, name@) == named_pid(pv.skip(i as int), name@),
            decreases all@.len() - i,
        {
            assert(pv.skip(i as int)[0] == pv[i as int]);
            assert(pv[i as int] == *all@[i as int]);
            if same_text(all[i].name.as_str(), name) {
                return Ok(all[i].pid);
            }
            assert(pv.skip(i as int).drop_first() =~= pv.skip(i + 1));
            i = i + 1;
        }
        Err(self.undefined_error(object, name))
    }

    /// The first property the object carries with this pid.
    fn carried<'a>(object: &'a Object, pid: u16) -> (r: Option<&'a Property>)
        ensures
            match first_prop(object.stream_spec().properties@, pid) {
                Some(p) => r == Some(&p),
                None => r is None,
            },
            r matches Some(p) ==> p.pid == pid,
    {
        let found = object.get(pid);
        proof {
            let ps = object.stream_spec().properties@;
            if let Some(p) = found {
                let i = choose|i: int| 0 <= i < ps.len() && *p == ps[i] && p.pid == pid
                    && forall|j: int| 0 <= j < i ==> (#[trigger] ps[j]).pid != pid;
                lemma_first_prop(ps, pid, i);
            } else {
                lemma_first_prop(ps, pid, ps.len() as int);
            }
        }
        found
    }

    /// A named property's decoded value, if the object carries it.
    ///
    /// Most of AAF's properties are optional, so an object of the right class
    /// may still not have one; that is `None` rather than an error. Fails if
    /// the class does not define a property of that name, or if the stored
    /// bytes do not decode as the type it declares.
    pub fn value(&self, object: &Object, name: &str) -> (r: Result<Option<Value>>)
        requires
            self.wf(),
            self.decodable(),
        ensures
            match self.value_spec(*object, name@) {
                None => r matches Err(e) && self.undefined(*object, name@, e),
                Some(m) => found_model(r) == m,
            },
    {
        let pid = self.pid(object, name)?;
        let property = match Self::carried(object, pid) {
            Some(p) => p,
            None => { return Ok(None); },
        };
        let def = match self.metadict.property(object.class_id(), pid) {
            Some(d) => d,
            None => { return Err(self.undefined_error(object, name)); },
        };
        match self.metadict.decode(def.type_id, property) {
            Ok(v) => Ok(Some(v)),
            Err(e) => Err(e),
        }
    }

    /// The object a named strong reference points at, if the object has one.
    ///
    /// Fails if the class does not define a property of that name, if the
    /// property is not a single strong reference, or if the object it names
    /// cannot be read.
    pub fn child(&self, object: &Object, name: &str) -> (r: Result<Option<Object>>)
        requires
            self.wf(),
        ensures
            match self.pid_of(*object, name@) {
                None => r matches Err(e) && self.undefined(*object, name@, e),
                Some(pid) => match first_prop(object.stream_spec().properties@, pid) {
                    None => r matches Ok(None),
                    Some(p) => if p.value is StrongRef {
                        &&& r matches Ok(o) ==> o matches Some(c) && self.holds_one(*object, name@, c)
                        &&& ref_readable(self.cfb_view(), object.storage_spec().0, &p) ==> r is Ok
                    } else {
                        r == Err::<Option<Object>, Error>(Error::NotAReference { pid, expected: "a strong reference" })
                    },
                },
            },
    {
        let pid = self.pid(object, name)?;
        let property = match Self::carried(object, pid) {
            Some(p) => p,
            None => { return Ok(None); },
        };
        let o = match self.file.strong_ref(object, property) {
            Ok(o) => o,
            Err(e) => { return Err(e); },
        };
        proof {
            assert(held_by(self.cfb_view(), object.storage_spec().0, *property, seq![o]));
        }
        Ok(Some(o))
    }

    /// The objects a named collection holds, in the order the file keeps
    /// them.
    ///
    /// Vectors and sets read the same way, and a single strong reference
    /// reads as a list of one. A property the object does not carry is an
    /// empty list. Fails if the class does not define a property of that
    /// name, if the property is not a strong reference of any kind, or if
    /// one of the objects cannot be read.
    pub fn children(&self, object: &Object, name: &str) -> (r: Result<Vec<Object>>)
        requires
            self.wf(),
        ensures
            self.children_result(*object, name@, r),
    {
        let pid = self.pid(object, name)?;
        let property = match Self::carried(object, pid) {
            Some(p) => p,
            None => { return Ok(Vec::new()); },
        };
        match &property.value {
            PropertyValue::StrongRefVector { .. } => self.file.strong_ref_vector(object, property),
            PropertyValue::StrongRefSet { .. } => {
                let mut members = self.file.strong_ref_set(object, property)?;
                let ghost ms = members@;
                let n = members.len();
                let mut out: Vec<Object> = Vec::new();
                let mut i: usize = 0;
                while members.len() > 0
                    invariant
                        i <= ms.len(),
                        n == ms.len(),
                        members@ == ms.skip(i as int),
                        out@ == set_objects(ms.take(i as int)),
                    decreases members@.len(),
                {
                    let (_, o) = members.remove(0);
                    proof {
                        assert(ms.take(i + 1) =~= ms.take(i as int).push(ms[i as int]));
                        assert(set_objects(ms.take(i + 1)) =~= set_objects(ms.take(i as int)).push(o));
                        assert(ms.skip(i + 1) =~= ms.skip(i as int).drop_first());
                    }
                    out.push(o);
                    i = i + 1;
                }
                assert(ms.take(ms.len() as int) =~= ms);
                Ok(out)
            },
            PropertyValue::StrongRef { .. } => {
                let o = self.file.strong_ref(object, property)?;
                let mut out: Vec<Object> = Vec::new();
                out.push(o);
                assert(out@ =~= seq![o]);
                Ok(out)
            },
            _ => Err(Error::NotAReference { pid, expected: "a collection of strong references" }),
        }
    }

    /// The key a named weak reference carries.
    ///
    /// A weak reference names an object owned elsewhere in the file rather
    /// than pointing at it. Fails if the class does not define a property of
    /// that name, or if the property is not a weak reference.
    pub fn weak_key(&self, object: &Object, name: &str) -> (r: Result<Option<RefKey>>)
        requires
            self.wf(),
        ensures
            match self.pid_of(*object, name@) {
                None => r matches Err(e) && self.undefined(*object, name@, e),
                Some(pid) => match first_prop(object.stream_spec().properties@, pid) {
                    None => r matches Ok(None),
                    Some(p) => match p.value {
                        PropertyValue::WeakRef { key, .. } => r == Ok::<Option<RefKey>, Error>(Some(key)),
                        _ => r == Err::<Option<RefKey>, Error>(Error::NotAReference { pid, expected: "a weak reference" }),
                    },
                },
            },
    {
        let pid = self.pid(object, name)?;
        let property = match Self::carried(object, pid) {
            Some(p) => p,
            None => { return Ok(None); },
        };
        match &property.value {
            PropertyValue::WeakRef { key, .. } => Ok(Some(*key)),
            _ => Err(Error::NotAReference { pid, expected: "a weak reference" }),
        }
    }

    /// What an object is called.
    ///
    /// Most of AAF's classes call this `Name`, but a mob slot calls it
    /// `SlotName`, so this reads whichever one the class defines. Both are
    /// optional, and an object may have neither. Fails if the object's class
    /// has neither property, or if the stored value does not decode.
    pub fn name(&self, object: &Object) -> (r: Result<Option<String>>)
        requires
            self.wf(),
            self.decodable(),
        ensures
            match self.name_property(*object) {
                None => r matches Err(e) && self.undefined(*object, "Name"@, e),
                Some(n) => match self.value_spec(*object, n) {
                    None => r matches Err(e) && self.undefined(*object, n, e),
                    Some(None) => r matches Ok(None),
                    Some(Some(Err(e))) => r == Err::<Option<String>, Error>(e),
                    Some(Some(Ok(v))) => match model_text(v) {
                        Some(t) => r matches Ok(Some(s)) && s@ == t,
                        None => r matches Ok(None),
                    },
                },
            },
    {
        let defined: &str = if self.pid(object, "Name").is_ok() {
            "Name"
        } else if self.pid(object, "SlotName").is_ok() {
            "SlotName"
        } else {
            return Err(self.undefined_error(object, "Name"));
        };
        let value = match self.value(object, defined) {
            Ok(v) => v,
            Err(e) => { return Err(e); },
        };
        match value {
            Some(v) => match v.as_str() {
                Some(text) => {
                    let mut out = String::new();
                    push_str(&mut out, text);
                    assert(out@ =~= text@);
                    Ok(Some(out))
                },
                None => Ok(None),
            },
            None => Ok(None),
        }
    }

    /// A mob's identifier, which is how everything else refers to it; `None`
    /// where the mob carries none or it is not a mob id.
    ///
    /// Fails if the object's class has no `MobID` property, or if the stored
    /// value does not decode.
    pub fn mob_id(&self, object: &Object) -> (r: Result<Option<MobId>>)
        requires
            self.wf(),
            self.decodable(),
        ensures
            match self.value_spec(*object, "MobID"@) {
                None => r matches Err(e) && self.undefined(*object, "MobID"@, e),
                Some(None) => r matches Ok(None),
                Some(Some(Err(e))) => r == Err::<Option<MobId>, Error>(e),
                Some(Some(Ok(v))) => match v {
                    ValueModel::MobId(b) => r matches Ok(Some(id)) && id@ == b,
                    _ => r matches Ok(None),
                },
            },
    {
        match self.value(object, "MobID") {
            Ok(Some(Value::MobId(id))) => Ok(Some(id)),
            Ok(_) => Ok(None),
            Err(e) => Err(e),
        }
    }

    /// A named child the file is not readable without.
    fn required(&self, object: &Object, name: &str) -> (r: Result<Object>)
        requires
            self.wf(),
        ensures
            match self.pid_of(*object, name@) {
                None => r matches Err(e) && self.undefined(*object, name@, e),
                Some(pid) => match first_prop(object.stream_spec().properties@, pid) {
                    None => r matches Err(Error::MissingProperty { class, property })
                        && class@ == self.class_label(*object) && property@ == name@,
                    Some(p) => if p.value is StrongRef {
                        &&& r matches Ok(c) ==> self.holds_one(*object, name@, c)
                        &&& ref_readable(self.cfb_view(), object.storage_spec().0, &p) ==> r is Ok
                    } else {
                        r == Err::<Object, Error>(Error::NotAReference { pid, expected: "a strong reference" })
                    },
                },
            },
    {
        match self.child(object, name) {
            Ok(Some(c)) => Ok(c),
            Ok(None) => {
                let mut class = String::new();
                match self.class_name(object) {
                    Some(n) => push_str(&mut class, n),
                    None => push_str(&mut class, "?"),
                }
                let mut property = String::new();
                push_str(&mut property, name);
                proof {
                    assert(class@ =~= self.class_label(*object));
                    assert(property@ =~= name@);
                }
                Err(Error::MissingProperty { class, property })
            },
            Err(e) => Err(e),
        }
    }

    /// The file's root object, which owns everything else.
    ///
    /// Fails if the root storage cannot be read as an object.
    pub fn root(&self) -> (r: Result<Object>)
        requires
            self.wf(),
        ensures
            r matches Ok(o) ==> object_read(self.cfb_view(), 0, o),
            object_readable(self.cfb_view(), 0) ==> r is Ok,
    {
        self.file.root()
    }

    /// The file's `Header`, which holds the content and the dictionary.
    ///
    /// Fails if the file has no header, which no valid AAF does.
    pub fn header(&self) -> (r: Result<Object>)
        requires
            self.wf(),
        ensures
            r matches Ok(h) ==> self.header_read(h),
            self.header_readable() ==> r is Ok,
    {
        let root = self.root()?;
        let h = self.required(&root, "Header")?;
        assert(object_read(self.cfb_view(), 0, root));
        Ok(h)
    }

    /// The `ContentStorage`, which holds every mob in the file.
    ///
    /// Fails if the header has no content storage.
    pub fn content(&self) -> (r: Result<Object>)
        requires
            self.wf(),
        ensures
            r matches Ok(c) ==> self.content_read(c),
            self.content_readable() ==> r is Ok,
    {
        let header = self.header()?;
        let c = self.required(&header, "Content")?;
        assert(self.header_read(header));
        Ok(c)
    }

    /// Every mob in the file.
    ///
    /// Fails if the content storage or one of the mobs cannot be read.
    pub fn mobs(&self) -> (r: Result<Vec<Object>>)
        requires
            self.wf(),
        ensures
            r matches Ok(ms) ==> self.mobs_read(ms@),
            self.mobs_readable() ==> r is Ok,
    {
        let content = self.content()?;
        let ms = self.children(&content, "Mobs")?;
        assert(self.content_read(content));
        Ok(ms)
    }

    /// The mobs of one kind, such as `CompositionMob` or `MasterMob`.
    ///
    /// Kinds inherit, so asking for `Mob` gives every mob in the file. Fails
    /// if the content storage or one of the mobs cannot be read.
    pub fn mobs_of(&self, class_name: &str) -> (r: Result<Vec<Object>>)
        requires
            self.wf(),
        ensures
            r matches Ok(out) ==> exists|ms: Seq<Object>| #[trigger] self.mobs_read(ms)
                && out@ == self.of_kind(ms, class_name@),
            self.mobs_readable() ==> r is Ok,
    {
        let mut mobs = self.mobs()?;
        let ghost ms = mobs@;
        let n = mobs.len();
        let mut out: Vec<Object> = Vec::new();
        let mut i: usize = 0;
        assert(ms.take(0) =~= Seq::<Object>::empty());
        while mobs.len() > 0
            invariant
                self.wf(),
                i <= ms.len(),
                n == ms.len(),
                mobs@ == ms.skip(i as int),
                out@ == self.of_kind(ms.take(i as int), class_name@),
            decreases mobs@.len(),
        {
            let mob = mobs.remove(0);
            proof {
                assert(ms.take(i + 1).drop_last() =~= ms.take(i as int));
                assert(ms.take(i + 1).last() == mob);
                assert(ms.skip(i + 1) =~= ms.skip(i as int).drop_first());
            }
            if self.is_a(&mob, class_name) {
                out.push(mob);
            }
            i = i + 1;
        }
        assert(ms.take(ms.len() as int) =~= ms);
        Ok(out)
    }

    /// The composition mobs an application would open the file on: those
    /// whose `UsageCode` reads as `Usage_TopLevel`.
    ///
    /// Fails if the content storage or one of the mobs cannot be read, or if
    /// a usage code does not decode.
    #[verifier::spinoff_prover]
    #[verifier::rlimit(40)]
    pub fn top_level_mobs(&self) -> (r: Result<Vec<Object>>)
        requires
            self.wf(),
            self.decodable(),
        ensures
            r matches Ok(out) ==> exists|ms: Seq<Object>| #[trigger] self.mobs_read(ms)
                && out@ == self.top_level_of(self.of_kind(ms, "CompositionMob"@)),
            self.mobs_readable() && self.usages_decode() ==> r is Ok,
            r matches Ok(out) ==> forall|i: int| 0 <= i < out@.len() ==> self.used_at_top_level(#[trigger] out@[i]),
    {
        let mut mobs = self.mobs_of("CompositionMob")?;
        let ghost ms = mobs@;
        let ghost readable = self.mobs_readable() && self.usages_decode();
        proof {
            if readable {
                let all = choose|all: Seq<Object>| #[trigger] self.mobs_read(all) && ms == self.of_kind(all, "CompositionMob"@);
                assert(self.mobs_read(all));
            }
        }
        let n = mobs.len();
        let mut out: Vec<Object> = Vec::new();
        let mut i: usize = 0;
        assert(ms.take(0) =~= Seq::<Object>::empty());
        while mobs.len() > 0
            invariant
                self.wf(),
                self.decodable(),
                i <= ms.len(),
                n == ms.len(),
                mobs@ == ms.skip(i as int),
                out@ == self.top_level_of(ms.take(i as int)),
                readable ==> forall|j: int| 0 <= j < ms.len() ==> #[trigger] self.usage_decodes(ms[j]),
                readable == (self.mobs_readable() && self.usages_decode()),
            decreases mobs@.len(),
        {
            let mob = mobs.remove(0);
            proof {
                assert(ms.take(i + 1).drop_last() =~= ms.take(i as int));
                assert(ms.take(i + 1).last() == mob);
                assert(ms.skip(i + 1) =~= ms.skip(i as int).drop_first());
            }
            assert(readable ==> self.usage_decodes(ms[i as int]));
            let usage = match self.value(&mob, "UsageCode") {
                Ok(v) => v,
                Err(e) => { return Err(e); },
            };
            let top = match &usage {
                Some(v) => match v.as_str() {
                    Some(text) => same_text(text, "Usage_TopLevel"),
                    None => false,
                },
                None => false,
            };
            if top {
                out.push(mob);
            }
            i = i + 1;
        }
        assert(ms.take(ms.len() as int) =~= ms);
        proof { self.lemma_top_level_usage(ms); }
        Ok(out)
    }

    /// A mob's slots, which are its tracks.
    ///
    /// Fails if the object is not a mob, or if a slot cannot be read.
    pub fn slots(&self, mob: &Object) -> (r: Result<Vec<Object>>)
        requires
            self.wf(),
        ensures
            self.children_result(*mob, "Slots"@, r),
    {
        self.children(mob, "Slots")
    }

    /// The components of a sequence, in order.
    ///
    /// Fails if the object is not a sequence, or if a component cannot be
    /// read.
    pub fn components(&self, sequence: &Object) -> (r: Result<Vec<Object>>)
        requires
            self.wf(),
        ensures
            self.children_result(*sequence, "Components"@, r),
    {
        self.children(sequence, "Components")
    }
}

} // verus!
