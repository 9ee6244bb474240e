//! A data model: its objects, enumerations and front matter.

use vstd::prelude::*;
use crate::frontmatter::FrontMatter;
use crate::object::{self, enums_view, EnumView, Enumeration, Object, ObjectView};
use crate::tree;

verus! {

/// A data model as read from a markdown file.
#[derive(Debug, Clone, PartialEq)]
pub struct DataModel {
    /// The title of the model.
    pub name: Option<String>,
    /// The objects of the model.
    pub objects: Vec<Object>,
    /// The enumerations of the model.
    pub enums: Vec<Enumeration>,
    /// The front matter of the model.
    pub config: Option<FrontMatter>,
}

impl DataModel {
    /// Creates an empty model with the given name and front matter.
    pub fn new(name: Option<String>, config: Option<FrontMatter>) -> (r: Self)
        ensures
            r.name == name,
            r.objects@.len() == 0,
            r.enums@.len() == 0,
            r.config == config,
    {
        DataModel { name, objects: Vec::new(), enums: Vec::new(), config }
    }

    /// Sorts the attributes of every object by requirement (see
    /// [`Object::sort_attrs_by_required`]).
    pub fn sort_attrs(&mut self)
        ensures
            final(self).objects@.len() == old(self).objects@.len(),
            forall|i: int|
                0 <= i < old(self).objects@.len() ==> {
                    &&& object::attrs_view(#[trigger] final(self).objects@[i].attributes@)
                        == object::spec_sort_by_required(
                        object::attrs_view(old(self).objects@[i].attributes@),
                    )
                    &&& final(self).objects@[i].same_besides_attributes(old(self).objects@[i])
                },
            final(self).name == old(self).name,
            final(self).enums == old(self).enums,
            final(self).config == old(self).config,
    {
        let mut i: usize = 0;
        while i < self.objects.len()
            invariant
                i <= self.objects@.len(),
                self.objects@.len() == old(self).objects@.len(),
                forall|k: int|
                    0 <= k < i ==> {
                        &&& object::attrs_view(#[trigger] self.objects@[k].attributes@)
                            == object::spec_sort_by_required(
                            object::attrs_view(old(self).objects@[k].attributes@),
                        )
                        &&& self.objects@[k].same_besides_attributes(old(self).objects@[k])
                    },
                forall|k: int| i <= k < self.objects@.len() ==> self.objects@[k] == old(self).objects@[k],
                self.name == old(self).name,
                self.enums == old(self).enums,
                self.config == old(self).config,
            decreases self.objects.len() - i,
        {
            self.objects[i].sort_attrs_by_required();
            i = i + 1;
        }
    }
}

/// The objects with those of `more` appended whose names are not among
/// them yet, one after the other (so of several with one name, the first).
pub open spec fn merge_objects(objs: Seq<ObjectView>, more: Seq<ObjectView>) -> Seq<ObjectView>
    decreases more.len(),
{
    if more.len() == 0 {
        objs
    } else {
        let m = merge_objects(objs, more.drop_last());
        if tree::names_of(m).contains(more.last().name) {
            m
        } else {
            m.push(more.last())
        }
    }
}

/// The names of enumerations.
pub open spec fn enum_names_of(enums: Seq<EnumView>) -> Seq<Seq<char>> {
    enums.map_values(|e: EnumView| e.name)
}

/// The enumerations with those of `more` appended whose names are not
/// among them yet, one after the other.
pub open spec fn merge_enums(enums: Seq<EnumView>, more: Seq<EnumView>) -> Seq<EnumView>
    decreases more.len(),
{
    if more.len() == 0 {
        enums
    } else {
        let m = merge_enums(enums, more.drop_last());
        if enum_names_of(m).contains(more.last().name) {
            m
        } else {
            m.push(more.last())
        }
    }
}

/// Whether an object has the name.
pub fn has_object_named(objs: &Vec<Object>, name: &String) -> (r: bool)
    ensures
        r == tree::names_of(object::objects_view(objs@)).contains(name@),
{
    let ghost nv = tree::names_of(object::objects_view(objs@));
    let mut i: usize = 0;
    while i < objs.len()
        invariant
            i <= objs@.len(),
            nv == tree::names_of(object::objects_view(objs@)),
            forall|k: int| 0 <= k < i ==> nv[k] != name@,
        decreases objs.len() - i,
    {
        assert(nv[i as int] == objs@[i as int]@.name);
        if objs[i].name == *name {
            assert(nv[i as int] == name@);
            return true;
        }
        i = i + 1;
    }
    false
}

/// Whether an enumeration has the name.
pub fn has_enum_named(enums: &Vec<Enumeration>, name: &String) -> (r: bool)
    ensures
        r == enum_names_of(enums_view(enums@)).contains(name@),
{
    let ghost nv = enum_names_of(enums_view(enums@));
    let mut i: usize = 0;
    while i < enums.len()
        invariant
            i <= enums@.len(),
            nv == enum_names_of(enums_view(enums@)),
            forall|k: int| 0 <= k < i ==> nv[k] != name@,
        decreases enums.len() - i,
    {
        assert(nv[i as int] == enums@[i as int].name@);
        if enums[i].name == *name {
            assert(nv[i as int] == name@);
            return true;
        }
        i = i + 1;
    }
    false
}

/// Appends the objects of `more` from position `from` on whose names are
/// not among the objects yet (see [`merge_objects`]).
pub fn merge_objects_from(objs: &mut Vec<Object>, more: &Vec<Object>, from: usize)
    requires
        from <= more@.len(),
    ensures
        object::objects_view(final(objs)@) == merge_objects(
            object::objects_view(old(objs)@),
            object::objects_view(more@).skip(from as int),
        ),
{
    let ghost start = object::objects_view(objs@);
    let ghost mv = object::objects_view(more@).skip(from as int);
    let mut i: usize = from;
    assert(mv.take(0) =~= Seq::<ObjectView>::empty());
    while i < more.len()
        invariant
            from <= i <= more@.len(),
            mv == object::objects_view(more@).skip(from as int),
            object::objects_view(objs@) == merge_objects(start, mv.take(i - from)),
        decreases more.len() - i,
    {
        let ghost before = objs@;
        assert(mv.take(i + 1 - from).drop_last() =~= mv.take(i - from));
        assert(mv.take(i + 1 - from).last() == more@[i as int]@);
        if !has_object_named(objs, &more[i].name) {
            let o = crate::markdown::parser::copy_object(&more[i]);
            objs.push(o);
            assert(object::objects_view(objs@) =~= object::objects_view(before).push(o@));
        }
        i = i + 1;
    }
    assert(mv.take(i - from) =~= mv);
}

/// Appends the enumerations of `more` whose names are not among the
/// enumerations yet (see [`merge_enums`]).
pub fn merge_enums_from(enums: &mut Vec<Enumeration>, more: &Vec<Enumeration>)
    ensures
        enums_view(final(enums)@) == merge_enums(enums_view(old(enums)@), enums_view(more@)),
{
    let ghost start = enums_view(enums@);
    let ghost mv = enums_view(more@);
    let mut i: usize = 0;
    assert(mv.take(0) =~= Seq::<EnumView>::empty());
    while i < more.len()
        invariant
            i <= more@.len(),
            mv == enums_view(more@),
            enums_view(enums@) == merge_enums(start, mv.take(i as int)),
        decreases more.len() - i,
    {
        let ghost before = enums@;
        assert(mv.take(i + 1).drop_last() =~= mv.take(i as int));
        assert(mv.take(i + 1).last() == object::enum_view(more@[i as int]));
        if !has_enum_named(enums, &more[i].name) {
            let e = more[i].copy();
            enums.push(e);
            assert(enums_view(enums@) =~= enums_view(before).push(object::enum_view(e)));
        }
        i = i + 1;
    }
    assert(mv.take(i as int) =~= mv);
}

/// The objects and enumerations with the models merged in, in order (see
/// [`merge_objects`] and [`merge_enums`]).
pub open spec fn merge_models(objs: Seq<ObjectView>, enums: Seq<EnumView>, ms: Seq<DataModel>) -> (
    Seq<ObjectView>,
    Seq<EnumView>,
)
    decreases ms.len(),
{
    if ms.len() == 0 {
        (objs, enums)
    } else {
        let (o, e) = merge_models(objs, enums, ms.drop_last());
        (
            merge_objects(o, object::objects_view(ms.last().objects@)),
            merge_enums(e, enums_view(ms.last().enums@)),
        )
    }
}

/// Merges the models in, in order (see [`merge_models`]).
pub fn merge_all(objects: &mut Vec<Object>, enums: &mut Vec<Enumeration>, ms: &Vec<DataModel>)
    ensures
        (object::objects_view(final(objects)@), enums_view(final(enums)@)) == merge_models(
            object::objects_view(old(objects)@),
            enums_view(old(enums)@),
            ms@,
        ),
{
    let ghost o0 = object::objects_view(objects@);
    let ghost e0 = enums_view(enums@);
    let mut i: usize = 0;
    assert(ms@.take(0) =~= Seq::<DataModel>::empty());
    while i < ms.len()
        invariant
            i <= ms@.len(),
            (object::objects_view(objects@), enums_view(enums@)) == merge_models(o0, e0, ms@.take(i as int)),
        decreases ms.len() - i,
    {
        assert(ms@.take(i + 1).drop_last() =~= ms@.take(i as int));
        assert(ms@.take(i + 1).last() == ms@[i as int]);
        assert(object::objects_view(ms@[i as int].objects@).skip(0) =~= object::objects_view(ms@[i as int].objects@));
        merge_objects_from(objects, &ms[i].objects, 0);
        merge_enums_from(enums, &ms[i].enums);
        i = i + 1;
    }
    assert(ms@.take(i as int) =~= ms@);
}

impl DataModel {
    /// Merges another model into this one: the other model's objects and
    /// enumerations whose names this model does not have yet are appended,
    /// in order; the name and front matter stay.
    pub fn merge(&mut self, other: &DataModel)
        ensures
            object::objects_view(final(self).objects@) == merge_objects(
                object::objects_view(old(self).objects@),
                object::objects_view(other.objects@),
            ),
            enums_view(final(self).enums@) == merge_enums(enums_view(old(self).enums@), enums_view(other.enums@)),
            final(self).name == old(self).name,
            final(self).config == old(self).config,
    {
        assert(object::objects_view(other.objects@).skip(0) =~= object::objects_view(other.objects@));
        merge_objects_from(&mut self.objects, &other.objects, 0);
        merge_enums_from(&mut self.enums, &other.enums);
    }
}

} // verus!
