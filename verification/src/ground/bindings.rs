//! Bindings of typed parameters to objects, and groundings of predicates.

use vstd::prelude::*;
use crate::error::MiniplanError;
use crate::ground::formula::bindings_view;
use crate::ground::types::{names_of_type, objects_of_type};
use crate::task::{Object, TypeHierarchy, strings_view};

verus! {

/// Every binding of `xs` extended by `name` bound to each of `ys`, in order.
pub open spec fn extend_bindings(
    xs: Seq<Seq<(Seq<char>, Seq<char>)>>,
    name: Seq<char>,
    ys: Seq<Seq<char>>,
) -> Seq<Seq<(Seq<char>, Seq<char>)>>
    decreases xs.len(),
{
    if xs.len() == 0 {
        Seq::empty()
    } else {
        extend_bindings(xs.drop_last(), name, ys) + ys.map_values(|y: Seq<char>| xs.last().push((name, y)))
    }
}

/// All bindings of typed parameters to objects of their types: the first
/// parameter varies slowest; no parameters give one empty binding.
pub open spec fn bindings_product(
    params: Seq<(Seq<char>, Seq<char>)>,
    objs: Seq<Object>,
    types: &TypeHierarchy,
) -> Seq<Seq<(Seq<char>, Seq<char>)>>
    decreases params.len(),
{
    if params.len() == 0 {
        seq![Seq::empty()]
    } else {
        extend_bindings(
            bindings_product(params.drop_last(), objs, types),
            params.last().0,
            names_of_type(objs, params.last().1, types),
        )
    }
}

/// Copies a binding.
pub fn clone_binding(b: &Vec<(String, String)>) -> (r: Vec<(String, String)>)
    ensures
        bindings_view(r@) == bindings_view(b@),
{
    let mut r: Vec<(String, String)> = Vec::new();
    let n = b.len();
    for i in 0..n
        invariant
            n == b@.len(),
            bindings_view(r@) == bindings_view(b@).take(i as int),
    {
        let ghost before = r@;
        r.push((b[i].0.clone(), b[i].1.clone()));
        proof {
            assert(bindings_view(r@) =~= bindings_view(before).push((b@[i as int].0@, b@[i as int].1@)));
            assert(bindings_view(b@).take(i + 1) =~= bindings_view(b@).take(i as int).push((b@[i as int].0@, b@[i as int].1@)));
        }
    }
    assert(bindings_view(b@).take(n as int) =~= bindings_view(b@));
    r
}

/// The bindings' texts, in order.
pub open spec fn all_bindings_view(v: Seq<Vec<(String, String)>>) -> Seq<Seq<(Seq<char>, Seq<char>)>> {
    v.map_values(|b: Vec<(String, String)>| bindings_view(b@))
}

/// Extends every binding by a name bound to each of some objects.
fn extend_all(xs: &Vec<Vec<(String, String)>>, name: &String, ys: &Vec<&str>) -> (r: Vec<Vec<(String, String)>>)
    ensures
        all_bindings_view(r@) == extend_bindings(all_bindings_view(xs@), name@, ys@.map_values(|s: &str| s@)),
{
    let ghost xv = all_bindings_view(xs@);
    let ghost yv = ys@.map_values(|s: &str| s@);
    let mut r: Vec<Vec<(String, String)>> = Vec::new();
    let nx = xs.len();
    let ny = ys.len();
    for i in 0..nx
        invariant
            nx == xs@.len(),
            ny == ys@.len(),
            xv == all_bindings_view(xs@),
            yv == ys@.map_values(|s: &str| s@),
            all_bindings_view(r@) == extend_bindings(xv.take(i as int), name@, yv),
    {
        proof {
            assert(xv.take(i + 1).drop_last() =~= xv.take(i as int));
            assert(xv.take(i + 1).last() == xv[i as int]);
        }
        let ghost base = all_bindings_view(r@);
        for j in 0..ny
            invariant
                nx == xs@.len(),
                ny == ys@.len(),
                i < nx,
                xv == all_bindings_view(xs@),
                yv == ys@.map_values(|s: &str| s@),
                all_bindings_view(r@) == base + yv.take(j as int).map_values(|y: Seq<char>| xv[i as int].push((name@, y))),
        {
            let mut b = clone_binding(&xs[i]);
            let ghost bb = bindings_view(b@);
            b.push((name.clone(), ys[j].to_owned()));
            let ghost before = r@;
            r.push(b);
            proof {
                assert(bindings_view(b@) =~= bb.push((name@, yv[j as int])));
                assert(all_bindings_view(r@) =~= all_bindings_view(before).push(xv[i as int].push((name@, yv[j as int]))));
                assert(yv.take(j + 1).map_values(|y: Seq<char>| xv[i as int].push((name@, y))) =~= yv.take(j as int).map_values(
                    |y: Seq<char>| xv[i as int].push((name@, y)),
                ).push(xv[i as int].push((name@, yv[j as int]))));
            }
        }
        proof {
            assert(yv.take(ny as int) =~= yv);
        }
    }
    proof {
        assert(xv.take(nx as int) =~= xv);
    }
    r
}

/// Typed parameters' texts.
pub open spec fn params_view(params: Seq<(String, String)>) -> Seq<(Seq<char>, Seq<char>)> {
    params.map_values(|p: (String, String)| (p.0@, p.1@))
}

/// All bindings of typed parameters to objects of their types, as
/// `bindings_product` says.
pub fn generate_bindings(params: &[(String, String)], objects: &[Object], types: &TypeHierarchy) -> (r: Result<Vec<Vec<(String, String)>>, MiniplanError>)
    requires
        types.supertypes.wf(),
    ensures
        r matches Ok(v) && all_bindings_view(v@) == bindings_product(params_view(params@), objects@, types),
{
    let ghost pv = params_view(params@);
    let mut acc: Vec<Vec<(String, String)>> = vec![Vec::new()];
    proof {
        assert(bindings_view(acc@[0]@) =~= Seq::<(Seq<char>, Seq<char>)>::empty());
        assert(all_bindings_view(acc@) =~= seq![Seq::<(Seq<char>, Seq<char>)>::empty()]);
    }
    let n = params.len();
    for i in 0..n
        invariant
            n == params@.len(),
            pv == params_view(params@),
            types.supertypes.wf(),
            all_bindings_view(acc@) == bindings_product(pv.take(i as int), objects@, types),
    {
        proof {
            assert(pv.take(i + 1).drop_last() =~= pv.take(i as int));
            assert(pv.take(i + 1).last() == pv[i as int]);
        }
        let objs = objects_of_type(objects, params[i].1.as_str(), types);
        acc = extend_all(&acc, &params[i].0, &objs);
    }
    proof {
        assert(pv.take(n as int) =~= pv);
    }
    Ok(acc)
}

/// Every sequence of `arity` names from the given ones, the first varying
/// slowest.
pub open spec fn name_tuples(names: Seq<Seq<char>>, arity: nat) -> Seq<Seq<Seq<char>>>
    decreases arity,
{
    if arity == 0 {
        seq![Seq::empty()]
    } else {
        tuple_extend(name_tuples(names, (arity - 1) as nat), names)
    }
}

/// Every tuple extended by each name, in order.
pub open spec fn tuple_extend(xs: Seq<Seq<Seq<char>>>, names: Seq<Seq<char>>) -> Seq<Seq<Seq<char>>>
    decreases xs.len(),
{
    if xs.len() == 0 {
        Seq::empty()
    } else {
        tuple_extend(xs.drop_last(), names) + names.map_values(|y: Seq<char>| xs.last().push(y))
    }
}

/// The names of objects, in order.
pub open spec fn object_names(objs: Seq<Object>) -> Seq<Seq<char>> {
    objs.map_values(|o: Object| o.name@)
}

/// Tuples' texts.
pub open spec fn tuples_view(v: Seq<Vec<String>>) -> Seq<Seq<Seq<char>>> {
    v.map_values(|t: Vec<String>| strings_view(t@))
}

/// Every sequence of `arity` object names, the first varying slowest; none
/// when there are no objects and the arity is positive.
pub fn name_combinations(objects: &[Object], arity: usize) -> (r: Vec<Vec<String>>)
    ensures
        tuples_view(r@) == name_tuples(object_names(objects@), arity as nat),
{
    let ghost names = object_names(objects@);
    let mut acc: Vec<Vec<String>> = vec![Vec::new()];
    proof {
        assert(strings_view(acc@[0]@) =~= Seq::<Seq<char>>::empty());
        assert(tuples_view(acc@) =~= seq![Seq::<Seq<char>>::empty()]);
    }
    for k in 0..arity
        invariant
            names == object_names(objects@),
            tuples_view(acc@) == name_tuples(names, k as nat),
    {
        let mut next: Vec<Vec<String>> = Vec::new();
        let nx = acc.len();
        let no = objects.len();
        for i in 0..nx
            invariant
                nx == acc@.len(),
                no == objects@.len(),
                names == object_names(objects@),
                tuples_view(next@) == tuple_extend(tuples_view(acc@).take(i as int), names),
        {
            proof {
                assert(tuples_view(acc@).take(i + 1).drop_last() =~= tuples_view(acc@).take(i as int));
                assert(tuples_view(acc@).take(i + 1).last() == strings_view(acc@[i as int]@));
            }
            let ghost base = tuples_view(next@);
            for j in 0..no
                invariant
                    nx == acc@.len(),
                    no == objects@.len(),
                    i < nx,
                    names == object_names(objects@),
                    tuples_view(next@) == base + names.take(j as int).map_values(|y: Seq<char>| strings_view(acc@[i as int]@).push(y)),
            {
                let mut t = crate::task::clone_strings(&acc[i]);
                let ghost tv = strings_view(t@);
                t.push(objects[j].name.clone());
                let ghost before = next@;
                next.push(t);
                proof {
                    assert(strings_view(t@) =~= tv.push(names[j as int]));
                    assert(tuples_view(next@) =~= tuples_view(before).push(strings_view(acc@[i as int]@).push(names[j as int])));
                    assert(names.take(j + 1).map_values(|y: Seq<char>| strings_view(acc@[i as int]@).push(y)) =~= names.take(j as int).map_values(
                        |y: Seq<char>| strings_view(acc@[i as int]@).push(y),
                    ).push(strings_view(acc@[i as int]@).push(names[j as int])));
                }
            }
            proof {
                assert(names.take(no as int) =~= names);
            }
        }
        proof {
            assert(tuples_view(acc@).take(nx as int) =~= tuples_view(acc@));
        }
        acc = next;
    }
    acc
}

} // verus!
