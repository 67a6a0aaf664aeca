use vstd::prelude::*;
use vstd::string::StrSliceExecFns;

use crate::record::BootEnvironmentView;

verus! {

/// Lexicographic order of two paths by character, compared from index
/// `i` on; a proper prefix comes first.
pub open spec fn path_less_from(a: Seq<char>, b: Seq<char>, i: int) -> bool
    decreases a.len() - i,
{
    if i < 0 || i >= a.len() {
        0 <= i < b.len()
    } else if i >= b.len() {
        false
    } else if a[i] != b[i] {
        a[i] < b[i]
    } else {
        path_less_from(a, b, i + 1)
    }
}

/// Whether path `a` comes before path `b`.
pub open spec fn path_less(a: Seq<char>, b: Seq<char>) -> bool {
    path_less_from(a, b, 0)
}

/// The order in which a load lists records: by creation time, and by path
/// among records created at the same time.
pub open spec fn record_less(x: BootEnvironmentView, y: BootEnvironmentView) -> bool {
    x.created < y.created || (x.created == y.created && path_less(x.path, y.path))
}

proof fn lemma_path_less_from_irreflexive(a: Seq<char>, i: int)
    requires
        0 <= i,
    ensures
        !path_less_from(a, a, i),
    decreases a.len() - i,
{
    if i < a.len() {
        lemma_path_less_from_irreflexive(a, i + 1);
    }
}

proof fn lemma_path_less_from_transitive(a: Seq<char>, b: Seq<char>, c: Seq<char>, i: int)
    requires
        0 <= i,
        path_less_from(a, b, i),
        path_less_from(b, c, i),
    ensures
        path_less_from(a, c, i),
    decreases a.len() - i,
{
    if i < a.len() && i < b.len() && i < c.len() && a[i] == b[i] && b[i] == c[i] {
        lemma_path_less_from_transitive(a, b, c, i + 1);
    }
}

proof fn lemma_path_less_from_total(a: Seq<char>, b: Seq<char>, i: int)
    requires
        0 <= i <= a.len(),
        i <= b.len(),
        !path_less_from(a, b, i),
        !path_less_from(b, a, i),
    ensures
        a.len() == b.len(),
        forall|k: int| i <= k < a.len() ==> a[k] == b[k],
    decreases a.len() - i,
{
    if i < a.len() && i < b.len() {
        lemma_path_less_from_total(a, b, i + 1);
    }
}

/// The path order is a strict total order.
pub proof fn lemma_path_less_order(a: Seq<char>, b: Seq<char>, c: Seq<char>)
    ensures
        !path_less(a, a),
        path_less(a, b) && path_less(b, c) ==> path_less(a, c),
        a != b ==> path_less(a, b) || path_less(b, a),
{
    lemma_path_less_from_irreflexive(a, 0);
    if path_less(a, b) && path_less(b, c) {
        lemma_path_less_from_transitive(a, b, c, 0);
    }
    if !path_less(a, b) && !path_less(b, a) {
        lemma_path_less_from_total(a, b, 0);
        assert(a =~= b);
    }
}

/// The record order is a strict order, total on records with distinct paths.
pub proof fn lemma_record_less_order(x: BootEnvironmentView, y: BootEnvironmentView, z: BootEnvironmentView)
    ensures
        !record_less(x, x),
        record_less(x, y) && record_less(y, z) ==> record_less(x, z),
        x.path != y.path ==> record_less(x, y) || record_less(y, x),
{
    lemma_path_less_order(x.path, y.path, z.path);
    lemma_path_less_order(x.path, x.path, x.path);
    lemma_path_less_order(y.path, x.path, z.path);
}

/// Compares two paths in the path order.
pub fn path_before(a: &String, b: &String) -> (r: bool)
    ensures
        r == path_less(a@, b@),
{
    let sa = a.as_str();
    let sb = b.as_str();
    let la = sa.unicode_len();
    let lb = sb.unicode_len();
    let mut i: usize = 0;
    while i < la && i < lb
        invariant
            sa@ == a@,
            sb@ == b@,
            la == a@.len(),
            lb == b@.len(),
            i <= la,
            i <= lb,
            path_less(a@, b@) == path_less_from(a@, b@, i as int),
        decreases la - i,
    {
        let ca = sa.get_char(i);
        let cb = sb.get_char(i);
        if ca != cb {
            return ca < cb;
        }
        i = i + 1;
    }
    i == la && i < lb
}

} // verus!
