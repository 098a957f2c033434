//! Types and objects of a domain and problem.

use vstd::prelude::*;
use crate::error::MiniplanError;
use crate::pddl_model::{PddlDomain, PddlProblem, TypeRef, TypedName};
use crate::task::{Object, TypeHierarchy, supertype_of, reaches_type};

verus! {

/// The text of a declared type: the type itself, or the first of several,
/// or `object` when none is given.
pub open spec fn type_text(t: TypeRef) -> Seq<char> {
    match t {
        TypeRef::Exactly(s) => s@,
        TypeRef::EitherOf(v) => if v@.len() > 0 { v@[0]@ } else { "object"@ },
    }
}

/// The text of a declared type, as `type_text` says.
pub fn type_to_string(t: &TypeRef) -> (r: String)
    ensures
        r@ == type_text(*t),
{
    match t {
        TypeRef::Exactly(s) => s.clone(),
        TypeRef::EitherOf(v) => {
            if v.len() > 0 {
                v[0].clone()
            } else {
                proof {
                    reveal_strlit("object");
                }
                String::from_str("object")
            }
        },
    }
}

/// The supertype declared last for a type name.
pub open spec fn declared_supertype(types: Seq<TypedName>, name: Seq<char>) -> Option<Seq<char>>
    decreases types.len(),
{
    if types.len() == 0 {
        None
    } else if types.last().name@ == name {
        Some(type_text(types.last().type_ref))
    } else {
        declared_supertype(types.drop_last(), name)
    }
}

/// The type hierarchy of a domain: each declared type has the supertype
/// its last declaration gives.
pub fn extract_types(domain: &PddlDomain) -> (r: Result<TypeHierarchy, MiniplanError>)
    ensures
        r matches Ok(th) && th.supertypes.wf() && forall|t: Seq<char>| #[trigger] supertype_of(&th, t) == declared_supertype(domain.types@, t),
{
    let mut hierarchy = TypeHierarchy::new();
    hierarchy.add_type(String::from_str("object"), None);
    let n = domain.types.len();
    for i in 0..n
        invariant
            n == domain.types@.len(),
            hierarchy.supertypes.wf(),
            forall|t: Seq<char>| #[trigger] supertype_of(&hierarchy, t) == declared_supertype(domain.types@.take(i as int), t),
    {
        let name = domain.types[i].name.clone();
        let supertype = type_to_string(&domain.types[i].type_ref);
        let ghost before = hierarchy;
        hierarchy.add_type(name, Some(supertype));
        proof {
            assert(domain.types@.take(i + 1).drop_last() =~= domain.types@.take(i as int));
            assert forall|t: Seq<char>| #[trigger] supertype_of(&hierarchy, t) == declared_supertype(domain.types@.take(i + 1), t) by {
                if t != domain.types@[i as int].name@ {
                    assert(supertype_of(&hierarchy, t) == supertype_of(&before, t));
                }
            }
        }
    }
    proof {
        assert(domain.types@.take(n as int) =~= domain.types@);
        assert forall|t: Seq<char>| #[trigger] supertype_of(&hierarchy, t) == declared_supertype(domain.types@, t) by {
            assert(supertype_of(&hierarchy, t) == declared_supertype(domain.types@.take(n as int), t));
        }
    }
    Ok(hierarchy)
}

/// Names with their type texts, in order.
pub open spec fn named_types(list: Seq<TypedName>) -> Seq<(Seq<char>, Seq<char>)> {
    list.map_values(|t: TypedName| (t.name@, type_text(t.type_ref)))
}

/// Whether a name occurs among named entries.
pub open spec fn has_name(entries: Seq<(Seq<char>, Seq<char>)>, name: Seq<char>) -> bool {
    exists|i: int| 0 <= i < entries.len() && (#[trigger] entries[i]).0 == name
}

/// Named entries without repeats: each name once, with the type of its
/// first occurrence, in the order of first occurrence.
pub open spec fn first_occurrences(entries: Seq<(Seq<char>, Seq<char>)>) -> Seq<(Seq<char>, Seq<char>)>
    decreases entries.len(),
{
    if entries.len() == 0 {
        Seq::empty()
    } else {
        let prev = first_occurrences(entries.drop_last());
        if has_name(prev, entries.last().0) {
            prev
        } else {
            prev.push(entries.last())
        }
    }
}

/// Objects as names with their types.
pub open spec fn objects_view(objs: Seq<Object>) -> Seq<(Seq<char>, Seq<char>)> {
    objs.map_values(|o: Object| (o.name@, o.object_type@))
}

/// Appends an object unless its name is already present.
fn add_object(objects: &mut Vec<Object>, name: String, object_type: String)
    ensures
        objects_view(final(objects)@) == if has_name(objects_view(old(objects)@), name@) {
            objects_view(old(objects)@)
        } else {
            objects_view(old(objects)@).push((name@, object_type@))
        },
{
    let n = objects.len();
    for i in 0..n
        invariant
            n == objects@.len(),
            objects@ == old(objects)@,
            forall|j: int| 0 <= j < i ==> objects@[j].name@ != name@,
    {
        if objects[i].name == name {
            proof {
                assert(objects_view(objects@)[i as int].0 == name@);
            }
            return;
        }
    }
    proof {
        assert(!has_name(objects_view(objects@), name@));
    }
    let ghost before = objects@;
    objects.push(Object { name, object_type });
    assert(objects_view(objects@) =~= objects_view(before).push((name@, object_type@)));
}

/// The objects of a domain and problem: the domain's constants, then the
/// problem's objects, each name once with the type it first had.
pub fn extract_objects(domain: &PddlDomain, problem: &PddlProblem, types: &TypeHierarchy) -> (r: Result<Vec<Object>, MiniplanError>)
    ensures
        r matches Ok(v) && objects_view(v@) == first_occurrences(named_types(domain.constants@) + named_types(problem.objects@)),
{
    let ghost all = named_types(domain.constants@) + named_types(problem.objects@);
    let mut objects: Vec<Object> = Vec::new();
    let nc = domain.constants.len();
    for i in 0..nc
        invariant
            nc == domain.constants@.len(),
            all == named_types(domain.constants@) + named_types(problem.objects@),
            objects_view(objects@) == first_occurrences(all.take(i as int)),
    {
        proof {
            assert(all.take(i + 1).drop_last() =~= all.take(i as int));
            assert(all.take(i + 1).last() == all[i as int]);
        }
        add_object(&mut objects, domain.constants[i].name.clone(), type_to_string(&domain.constants[i].type_ref));
    }
    let np = problem.objects.len();
    for i in 0..np
        invariant
            nc == domain.constants@.len(),
            np == problem.objects@.len(),
            all == named_types(domain.constants@) + named_types(problem.objects@),
            objects_view(objects@) == first_occurrences(all.take(nc + i)),
    {
        proof {
            assert(all.take(nc + i + 1).drop_last() =~= all.take(nc + i));
            assert(all.take(nc + i + 1).last() == all[nc + i]);
        }
        add_object(&mut objects, problem.objects[i].name.clone(), type_to_string(&problem.objects[i].type_ref));
    }
    proof {
        assert(all.take(nc + np) =~= all);
    }
    Ok(objects)
}

/// The names of the objects whose type is a subtype of the given one, in
/// order.
pub open spec fn names_of_type(objs: Seq<Object>, wanted_type: Seq<char>, types: &TypeHierarchy) -> Seq<Seq<char>>
    decreases objs.len(),
{
    if objs.len() == 0 {
        Seq::empty()
    } else {
        let prev = names_of_type(objs.drop_last(), wanted_type, types);
        if reaches_type(types, objs.last().object_type@, wanted_type, types.supertypes.keys().len() as nat) {
            prev.push(objs.last().name@)
        } else {
            prev
        }
    }
}

/// The names of the objects of a type, subtypes included, in order.
pub fn objects_of_type<'a>(objects: &'a [Object], wanted_type: &str, types: &'a TypeHierarchy) -> (r: Vec<&'a str>)
    requires
        types.supertypes.wf(),
    ensures
        r@.map_values(|s: &str| s@) == names_of_type(objects@, wanted_type@, types),
{
    let mut r: Vec<&'a str> = Vec::new();
    let n = objects.len();
    for i in 0..n
        invariant
            n == objects@.len(),
            types.supertypes.wf(),
            r@.map_values(|s: &str| s@) == names_of_type(objects@.take(i as int), wanted_type@, types),
    {
        proof {
            assert(objects@.take(i + 1).drop_last() =~= objects@.take(i as int));
        }
        let ghost before = r@;
        if types.is_subtype_of(objects[i].object_type.as_str(), wanted_type) {
            r.push(objects[i].name.as_str());
            proof {
                assert(r@.map_values(|s: &str| s@) =~= before.map_values(|s: &str| s@).push(objects@[i as int].name@));
            }
        }
    }
    proof {
        assert(objects@.take(n as int) =~= objects@);
    }
    r
}

} // verus!
