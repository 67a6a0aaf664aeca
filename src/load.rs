use vstd::prelude::*;

use crate::order::{lemma_record_less_order, path_before, record_less};
use crate::record::{
    decode, find_key, lemma_first_key_index_bounds, lookup, views, BootEnvironmentObject,
    BootEnvironmentView, DecodeError, Entries, PropValue,
};

verus! {

/// One object of the remote directory: its path, and the properties of each
/// interface that it exposes.
#[derive(Debug, Clone, PartialEq, Eq)]
pub struct ManagedObject {
    pub path: String,
    pub interfaces: Entries<Entries<PropValue>>,
}

/// The interface that marks an object as a boot environment.
pub open spec fn target_interface() -> Seq<char> {
    "ca.kamacite.BootEnvironment"@
}

/// Decodes every object of the directory that exposes the boot environment
/// interface, in directory order. The first object that fails to decode fails
/// the whole list.
pub open spec fn decode_all(objs: Seq<ManagedObject>) -> Result<Seq<BootEnvironmentView>, DecodeError>
    decreases objs.len(),
{
    if objs.len() == 0 {
        Ok(Seq::empty())
    } else {
        match decode_all(objs.drop_last()) {
            Err(e) => Err(e),
            Ok(prev) => match lookup(objs.last().interfaces@, target_interface()) {
                None => Ok(prev),
                Some(props) => match decode(objs.last().path@, props@) {
                    Err(e) => Err(e),
                    Ok(v) => Ok(prev.push(v)),
                },
            },
        }
    }
}

/// Whether `s` is in ascending order of creation time.
pub open spec fn sorted_by_created(s: Seq<BootEnvironmentView>) -> bool {
    forall|i: int, j: int| 0 <= i < j < s.len() ==> s[i].created <= s[j].created
}

/// Whether no later record of `s` comes before an earlier one in the record
/// order (creation time, then path).
pub open spec fn sorted_records(s: Seq<BootEnvironmentView>) -> bool {
    forall|i: int, j: int| 0 <= i < j < s.len() ==> !record_less(s[j], s[i])
}

/// Whether no two records of `s` share a path.
pub open spec fn unique_paths(s: Seq<BootEnvironmentView>) -> bool {
    forall|i: int, j: int| 0 <= i < j < s.len() ==> s[i].path != s[j].path
}

/// Whether no two objects of a directory listing share a path.
pub open spec fn unique_object_paths(objs: Seq<ManagedObject>) -> bool {
    forall|i: int, j: int| 0 <= i < j < objs.len() ==> objs[i].path@ != objs[j].path@
}

/// The first index at or after `from` whose record comes after `x` in the
/// record order, or the length of `s` if there is none.
pub open spec fn insert_pos(s: Seq<BootEnvironmentView>, x: BootEnvironmentView, from: int) -> int
    decreases s.len() - from,
{
    if from < 0 || from >= s.len() {
        s.len() as int
    } else if record_less(x, s[from]) {
        from
    } else {
        insert_pos(s, x, from + 1)
    }
}

/// Inserts `x` before the first record that comes after it.
pub open spec fn insert_record(s: Seq<BootEnvironmentView>, x: BootEnvironmentView) -> Seq<BootEnvironmentView> {
    s.insert(insert_pos(s, x, 0), x)
}

/// Ascending order of creation time; records created at the same time are
/// ordered by path.
pub open spec fn sort_records(s: Seq<BootEnvironmentView>) -> Seq<BootEnvironmentView>
    decreases s.len(),
{
    if s.len() == 0 {
        s
    } else {
        insert_record(sort_records(s.drop_last()), s.last())
    }
}

/// What a full load of the directory `objs` yields.
pub open spec fn load_result(objs: Seq<ManagedObject>) -> Result<Seq<BootEnvironmentView>, DecodeError> {
    match decode_all(objs) {
        Ok(v) => Ok(sort_records(v)),
        Err(e) => Err(e),
    }
}

/// Relates an executable load result to its model.
pub open spec fn loaded_as(
    r: Result<Vec<BootEnvironmentObject>, DecodeError>,
    m: Result<Seq<BootEnvironmentView>, DecodeError>,
) -> bool {
    match (r, m) {
        (Ok(v), Ok(s)) => views(v@) == s,
        (Err(e), Err(f)) => e == f,
        _ => false,
    }
}

proof fn lemma_insert_pos(s: Seq<BootEnvironmentView>, x: BootEnvironmentView, from: int)
    requires
        0 <= from <= s.len(),
    ensures
        from <= insert_pos(s, x, from) <= s.len(),
        forall|k: int| from <= k < insert_pos(s, x, from) ==> !record_less(x, #[trigger] s[k]),
        insert_pos(s, x, from) < s.len() ==> record_less(x, s[insert_pos(s, x, from)]),
    decreases s.len() - from,
{
    if from < s.len() && !record_less(x, s[from]) {
        lemma_insert_pos(s, x, from + 1);
    }
}

proof fn lemma_insert_keeps_sorted(s: Seq<BootEnvironmentView>, x: BootEnvironmentView)
    requires
        sorted_records(s),
    ensures
        sorted_records(insert_record(s, x)),
        insert_record(s, x).len() == s.len() + 1,
{
    lemma_insert_pos(s, x, 0);
    let p = insert_pos(s, x, 0);
    let r = insert_record(s, x);
    assert forall|i: int, j: int| 0 <= i < j < r.len() implies !record_less(r[j], r[i]) by {
        if j < p {
            assert(r[i] == s[i] && r[j] == s[j]);
        } else if j == p {
            assert(r[i] == s[i]);
        } else if i < p {
            assert(r[i] == s[i] && r[j] == s[j - 1]);
        } else if i == p {
            assert(r[j] == s[j - 1]);
            if j - 1 > p {
                assert(!record_less(s[j - 1], s[p]));
            }
            lemma_record_less_order(s[j - 1], x, s[p]);
        } else {
            assert(r[i] == s[i - 1] && r[j] == s[j - 1]);
        }
    }
}

/// The sorted list has as many records as its input.
pub proof fn lemma_sort_len(s: Seq<BootEnvironmentView>)
    ensures
        sort_records(s).len() == s.len(),
    decreases s.len(),
{
    if s.len() > 0 {
        lemma_sort_len(s.drop_last());
        lemma_insert_pos(sort_records(s.drop_last()), s.last(), 0);
    }
}

/// Sorting yields a list in the record order.
pub proof fn lemma_sort_sorted(s: Seq<BootEnvironmentView>)
    ensures
        sorted_records(sort_records(s)),
    decreases s.len(),
{
    if s.len() > 0 {
        lemma_sort_sorted(s.drop_last());
        lemma_insert_keeps_sorted(sort_records(s.drop_last()), s.last());
    }
}

/// A list in the record order is in ascending order of creation time.
pub proof fn lemma_sorted_records_by_created(s: Seq<BootEnvironmentView>)
    requires
        sorted_records(s),
    ensures
        sorted_by_created(s),
{
    assert forall|i: int, j: int| 0 <= i < j < s.len() implies s[i].created <= s[j].created by {
        assert(!record_less(s[j], s[i]));
    }
}

/// Sorting only reorders: the sorted list holds the same records, each as
/// many times as its input.
pub proof fn lemma_sort_permutes(s: Seq<BootEnvironmentView>)
    ensures
        sort_records(s).to_multiset() == s.to_multiset(),
    decreases s.len(),
{
    if s.len() > 0 {
        let init = s.drop_last();
        lemma_sort_permutes(init);
        let sorted = sort_records(init);
        lemma_insert_pos(sorted, s.last(), 0);
        lemma_sort_len(init);
        vstd::seq_lib::to_multiset_insert(sorted, insert_pos(sorted, s.last(), 0), s.last());
        vstd::seq_lib::to_multiset_build(init, s.last());
        assert(init.push(s.last()) =~= s);
    }
}

proof fn lemma_sort_contains(s: Seq<BootEnvironmentView>, x: BootEnvironmentView)
    ensures
        sort_records(s).contains(x) == s.contains(x),
{
    lemma_sort_permutes(s);
    vstd::seq_lib::to_multiset_contains(s, x);
    vstd::seq_lib::to_multiset_contains(sort_records(s), x);
}

/// Sorting keeps paths unique.
pub proof fn lemma_sort_unique(s: Seq<BootEnvironmentView>)
    requires
        unique_paths(s),
    ensures
        unique_paths(sort_records(s)),
    decreases s.len(),
{
    if s.len() > 0 {
        let init = s.drop_last();
        let x = s.last();
        assert(unique_paths(init));
        lemma_sort_unique(init);
        let t = sort_records(init);
        lemma_sort_len(init);
        lemma_insert_pos(t, x, 0);
        let p = insert_pos(t, x, 0);
        let r = insert_record(t, x);
        assert forall|k: int| 0 <= k < t.len() implies (#[trigger] t[k]).path != x.path by {
            lemma_sort_contains(init, t[k]);
            assert(t.contains(t[k]));
            let m = choose|m: int| 0 <= m < init.len() && init[m] == t[k];
            assert(s[m] == init[m] && s[s.len() - 1] == x);
        }
        assert forall|i: int, j: int| 0 <= i < j < r.len() implies r[i].path != r[j].path by {
            if j < p {
                assert(r[i] == t[i] && r[j] == t[j]);
            } else if j == p {
                assert(r[i] == t[i]);
            } else if i < p {
                assert(r[i] == t[i] && r[j] == t[j - 1]);
            } else if i == p {
                assert(r[j] == t[j - 1]);
            } else {
                assert(r[i] == t[i - 1] && r[j] == t[j - 1]);
            }
        }
    }
}

/// A list already in the record order is left as it is.
pub proof fn lemma_sort_of_sorted(s: Seq<BootEnvironmentView>)
    requires
        sorted_records(s),
    ensures
        sort_records(s) == s,
    decreases s.len(),
{
    if s.len() > 0 {
        let init = s.drop_last();
        assert(sorted_records(init));
        lemma_sort_of_sorted(init);
        lemma_insert_pos(init, s.last(), 0);
        let p = insert_pos(init, s.last(), 0);
        if p < init.len() {
            assert(init[p] == s[p]);
        }
        assert(init.insert(init.len() as int, s.last()) =~= s);
    }
}

/// Two lists in the record order, each with unique paths, that hold the same
/// records are equal.
pub proof fn lemma_sorted_unique_equal(s: Seq<BootEnvironmentView>, t: Seq<BootEnvironmentView>)
    requires
        sorted_records(s),
        sorted_records(t),
        unique_paths(s),
        unique_paths(t),
        forall|x: BootEnvironmentView| s.contains(x) <==> t.contains(x),
    ensures
        s == t,
    decreases s.len(),
{
    if s.len() == 0 {
        if t.len() > 0 {
            assert(t.contains(t[0]));
        }
        assert(t =~= s);
    } else {
        assert(s.contains(s[0]));
        let k = choose|k: int| 0 <= k < t.len() && t[k] == s[0];
        assert(t.contains(t[0]));
        let m = choose|m: int| 0 <= m < s.len() && s[m] == t[0];
        if k > 0 {
            // t[0] comes strictly before t[k] == s[0], and s[0] no later than s[m] == t[0].
            lemma_record_less_order(t[0], t[k], t[0]);
            assert(record_less(t[0], t[k]));
            if m > 0 {
                lemma_record_less_order(s[0], s[m], s[0]);
                assert(record_less(s[0], s[m]));
                lemma_record_less_order(s[0], t[0], s[0]);
            }
        }
        assert(s[0] == t[0]);
        let s1 = s.drop_first();
        let t1 = t.drop_first();
        assert forall|x: BootEnvironmentView| s1.contains(x) <==> t1.contains(x) by {
            if s1.contains(x) {
                let i = choose|i: int| 0 <= i < s1.len() && s1[i] == x;
                assert(s[i + 1] == x);
                assert(t.contains(x));
                let j = choose|j: int| 0 <= j < t.len() && t[j] == x;
                assert(s[0].path != s[i + 1].path);
                assert(j != 0);
                assert(t1[j - 1] == x);
            }
            if t1.contains(x) {
                let j = choose|j: int| 0 <= j < t1.len() && t1[j] == x;
                assert(t[j + 1] == x);
                assert(s.contains(x));
                let i = choose|i: int| 0 <= i < s.len() && s[i] == x;
                assert(t[0].path != t[j + 1].path);
                assert(i != 0);
                assert(s1[i - 1] == x);
            }
        }
        lemma_sorted_unique_equal(s1, t1);
        assert(s =~= seq![s[0]] + s1);
        assert(t =~= seq![t[0]] + t1);
    }
}

/// A full load yields records in ascending order of creation time, and
/// sorting its result again changes nothing.
pub proof fn lemma_load_sorted_and_stable(objs: Seq<ManagedObject>)
    ensures
        load_result(objs) is Ok ==> sorted_by_created(load_result(objs)->Ok_0),
        load_result(objs) is Ok ==> sorted_records(load_result(objs)->Ok_0),
        load_result(objs) is Ok ==> sort_records(load_result(objs)->Ok_0) == load_result(objs)->Ok_0,
{
    if let Ok(v) = decode_all(objs) {
        lemma_sort_sorted(v);
        lemma_sorted_records_by_created(sort_records(v));
        lemma_sort_of_sorted(sort_records(v));
    }
}

/// Whether object `o` does not fail a load: it is no boot environment, or it
/// decodes.
pub open spec fn object_loads(o: ManagedObject) -> bool {
    match lookup(o.interfaces@, target_interface()) {
        None => true,
        Some(props) => decode(o.path@, props@) is Ok,
    }
}

/// Whether object `o` decodes to record `x`.
pub open spec fn object_yields(o: ManagedObject, x: BootEnvironmentView) -> bool {
    match lookup(o.interfaces@, target_interface()) {
        None => false,
        Some(props) => decode(o.path@, props@) == Ok::<BootEnvironmentView, DecodeError>(x),
    }
}

/// Decoding a directory succeeds exactly when every object loads, and then
/// holds exactly the records that its objects decode to.
pub proof fn lemma_decode_all_contents(objs: Seq<ManagedObject>)
    ensures
        decode_all(objs) is Ok <==> forall|i: int| 0 <= i < objs.len() ==> object_loads(#[trigger] objs[i]),
        decode_all(objs) is Ok ==> forall|x: BootEnvironmentView|
            decode_all(objs)->Ok_0.contains(x) <==> exists|i: int| 0 <= i < objs.len() && object_yields(#[trigger] objs[i], x),
    decreases objs.len(),
{
    if objs.len() > 0 {
        let init = objs.drop_last();
        let o = objs.last();
        lemma_decode_all_contents(init);
        assert forall|i: int| 0 <= i < init.len() implies init[i] == objs[i] by {}
        assert(o == objs[objs.len() - 1]);
        if decode_all(objs) is Ok {
            let v = decode_all(objs)->Ok_0;
            let prev = decode_all(init)->Ok_0;
            assert forall|x: BootEnvironmentView| v.contains(x) <==> exists|i: int| 0 <= i < objs.len() && object_yields(#[trigger] objs[i], x) by {
                if v.contains(x) {
                    let j = choose|j: int| 0 <= j < v.len() && v[j] == x;
                    if j < prev.len() {
                        assert(prev[j] == x);
                        assert(prev.contains(x));
                        let i = choose|i: int| 0 <= i < init.len() && object_yields(#[trigger] init[i], x);
                        assert(object_yields(objs[i], x));
                    } else {
                        assert(object_yields(objs[objs.len() - 1], x));
                    }
                }
                if exists|i: int| 0 <= i < objs.len() && object_yields(#[trigger] objs[i], x) {
                    let i = choose|i: int| 0 <= i < objs.len() && object_yields(#[trigger] objs[i], x);
                    if i < init.len() {
                        assert(object_yields(init[i], x));
                        assert(decode_all(init) is Ok);
                        assert(prev.contains(x));
                        let j = choose|j: int| 0 <= j < prev.len() && prev[j] == x;
                        assert(v[j] == x);
                    } else {
                        assert(v[v.len() - 1] == x);
                    }
                }
            }
        } else {
            if decode_all(init) is Ok {
                assert(!object_loads(objs[objs.len() - 1]));
            } else {
                let i = choose|i: int| 0 <= i < init.len() && !object_loads(#[trigger] init[i]);
                assert(!object_loads(objs[i]));
            }
        }
    } else {
        assert(decode_all(objs)->Ok_0 =~= Seq::<BootEnvironmentView>::empty());
    }
}

/// A listing with unique paths decodes to records with unique paths.
pub proof fn lemma_decode_all_unique(objs: Seq<ManagedObject>)
    requires
        unique_object_paths(objs),
    ensures
        decode_all(objs) is Ok ==> unique_paths(decode_all(objs)->Ok_0),
    decreases objs.len(),
{
    if objs.len() > 0 && decode_all(objs) is Ok {
        let init = objs.drop_last();
        let o = objs.last();
        assert(unique_object_paths(init));
        lemma_decode_all_unique(init);
        lemma_decode_all_contents(init);
        let prev = decode_all(init)->Ok_0;
        let v = decode_all(objs)->Ok_0;
        if v.len() > prev.len() {
            let x = v[v.len() - 1];
            assert forall|k: int| 0 <= k < prev.len() implies (#[trigger] prev[k]).path != x.path by {
                assert(prev.contains(prev[k]));
                let i = choose|i: int| 0 <= i < init.len() && object_yields(#[trigger] init[i], prev[k]);
                assert(objs[i] == init[i] && objs[objs.len() - 1] == o);
            }
            assert forall|i: int, j: int| 0 <= i < j < v.len() implies v[i].path != v[j].path by {
                if j < prev.len() {
                    assert(v[i] == prev[i] && v[j] == prev[j]);
                } else {
                    assert(v[i] == prev[i]);
                }
            }
        }
    }
}

/// A load depends on the objects of the directory alone, not on the order in
/// which a listing names them: two listings with unique paths that hold the
/// same objects both fail, or both yield the same ordered list.
pub proof fn lemma_load_ignores_listing_order(o1: Seq<ManagedObject>, o2: Seq<ManagedObject>)
    requires
        unique_object_paths(o1),
        unique_object_paths(o2),
        forall|o: ManagedObject| o1.contains(o) <==> o2.contains(o),
    ensures
        load_result(o1) is Ok <==> load_result(o2) is Ok,
        load_result(o1) is Ok ==> load_result(o1) == load_result(o2),
{
    lemma_decode_all_contents(o1);
    lemma_decode_all_contents(o2);
    assert((forall|i: int| 0 <= i < o1.len() ==> object_loads(#[trigger] o1[i])) <==> (forall|i: int|
        0 <= i < o2.len() ==> object_loads(#[trigger] o2[i]))) by {
        if forall|i: int| 0 <= i < o1.len() ==> object_loads(#[trigger] o1[i]) {
            assert forall|i: int| 0 <= i < o2.len() implies object_loads(#[trigger] o2[i]) by {
                assert(o2.contains(o2[i]));
                let j = choose|j: int| 0 <= j < o1.len() && o1[j] == o2[i];
            }
        }
        if forall|i: int| 0 <= i < o2.len() ==> object_loads(#[trigger] o2[i]) {
            assert forall|i: int| 0 <= i < o1.len() implies object_loads(#[trigger] o1[i]) by {
                assert(o1.contains(o1[i]));
                let j = choose|j: int| 0 <= j < o2.len() && o2[j] == o1[i];
            }
        }
    }
    if decode_all(o1) is Ok {
        let v1 = decode_all(o1)->Ok_0;
        let v2 = decode_all(o2)->Ok_0;
        lemma_decode_all_unique(o1);
        lemma_decode_all_unique(o2);
        lemma_sort_sorted(v1);
        lemma_sort_sorted(v2);
        lemma_sort_unique(v1);
        lemma_sort_unique(v2);
        assert forall|x: BootEnvironmentView| sort_records(v1).contains(x) <==> sort_records(v2).contains(x) by {
            lemma_sort_contains(v1, x);
            lemma_sort_contains(v2, x);
            if exists|i: int| 0 <= i < o1.len() && object_yields(#[trigger] o1[i], x) {
                let i = choose|i: int| 0 <= i < o1.len() && object_yields(#[trigger] o1[i], x);
                assert(o2.contains(o1[i]));
                let j = choose|j: int| 0 <= j < o2.len() && o2[j] == o1[i];
                assert(object_yields(o2[j], x));
            }
            if exists|i: int| 0 <= i < o2.len() && object_yields(#[trigger] o2[i], x) {
                let i = choose|i: int| 0 <= i < o2.len() && object_yields(#[trigger] o2[i], x);
                assert(o1.contains(o2[i]));
                let j = choose|j: int| 0 <= j < o1.len() && o1[j] == o2[i];
                assert(object_yields(o1[j], x));
            }
        }
        lemma_sorted_unique_equal(sort_records(v1), sort_records(v2));
    }
}

proof fn lemma_decode_all_err_extends(s: Seq<ManagedObject>, n: int)
    requires
        0 <= n <= s.len(),
        decode_all(s.take(n)) is Err,
    ensures
        decode_all(s) == decode_all(s.take(n)),
    decreases s.len(),
{
    if n == s.len() {
        assert(s.take(n) =~= s);
    } else {
        assert(s.drop_last().take(n) =~= s.take(n));
        lemma_decode_all_err_extends(s.drop_last(), n);
    }
}

/// Whether record `x` comes before record `y` in the record order.
fn record_before(x: &BootEnvironmentObject, y: &BootEnvironmentObject) -> (r: bool)
    ensures
        r == record_less(x@, y@),
{
    x.created < y.created || (x.created == y.created && path_before(&x.path, &y.path))
}

fn insert_sorted(envs: &mut Vec<BootEnvironmentObject>, env: BootEnvironmentObject)
    ensures
        views(final(envs)@) == insert_record(views(old(envs)@), env@),
{
    let mut j: usize = 0;
    while j < envs.len() && !record_before(&env, &envs[j])
        invariant
            j <= envs.len(),
            envs@ == old(envs)@,
            insert_pos(views(envs@), env@, 0) == insert_pos(views(envs@), env@, j as int),
        decreases envs.len() - j,
    {
        j = j + 1;
    }
    let ghost before = envs@;
    envs.insert(j, env);
    assert(views(envs@) =~= views(before).insert(j as int, env@));
}

/// Decodes the boot environments of a directory listing and orders them by
/// creation time, and by path among equal times. Any object that fails to
/// decode fails the whole load, with the error of the first such object.
/// Where the listing's paths are unique, so are the result's.
pub fn load_boot_environments(objects: &Vec<ManagedObject>) -> (r: Result<Vec<BootEnvironmentObject>, DecodeError>)
    ensures
        loaded_as(r, load_result(objects@)),
        unique_object_paths(objects@) && r is Ok ==> unique_paths(views(r->Ok_0@)),
{
    let target = "ca.kamacite.BootEnvironment".to_owned();
    let mut envs: Vec<BootEnvironmentObject> = Vec::new();
    let mut i: usize = 0;
    assert(objects@.take(0) =~= Seq::<ManagedObject>::empty());
    while i < objects.len()
        invariant
            i <= objects.len(),
            target@ == target_interface(),
            decode_all(objects@.take(i as int)) is Ok,
            views(envs@) == sort_records(decode_all(objects@.take(i as int))->Ok_0),
        decreases objects.len() - i,
    {
        let ghost prefix = objects@.take(i as int + 1);
        assert(prefix.drop_last() =~= objects@.take(i as int));
        assert(prefix.last() == objects@[i as int]);
        let obj = &objects[i];
        match find_key(&obj.interfaces, &target) {
            None => {},
            Some(k) => {
                proof {
                    lemma_first_key_index_bounds(obj.interfaces@, target@, 0);
                }
                match BootEnvironmentObject::from_properties(obj.path.clone(), &obj.interfaces[k].1) {
                    Ok(env) => {
                        let ghost prev = decode_all(objects@.take(i as int))->Ok_0;
                        assert(decode_all(prefix) == Ok::<_, DecodeError>(prev.push(env@)));
                        assert(prev.push(env@).drop_last() =~= prev);
                        insert_sorted(&mut envs, env);
                    },
                    Err(e) => {
                        proof {
                            lemma_decode_all_err_extends(objects@, i as int + 1);
                        }
                        return Err(e);
                    },
                }
            },
        }
        i = i + 1;
    }
    assert(objects@.take(objects.len() as int) =~= objects@);
    proof {
        if unique_object_paths(objects@) {
            lemma_decode_all_unique(objects@);
            lemma_sort_unique(decode_all(objects@)->Ok_0);
        }
    }
    Ok(envs)
}

} // verus!
