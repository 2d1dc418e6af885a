//! Lists of values and the lists of their views.

use vstd::prelude::*;

verus! {

/// The items of a list, each as its plain value.
pub open spec fn views<T: View>(v: Seq<T>) -> Seq<T::V> {
    Seq::new(v.len(), |i: int| v[i]@)
}

/// The views of a list go along with appending to it.
pub proof fn lemma_views_push<T: View>(v: Seq<T>, x: T)
    ensures
        views(v.push(x)) == views(v).push(x@),
{
    assert(views(v.push(x)) =~= views(v).push(x@));
}

/// The views of a list go along with taking an item out of it.
pub proof fn lemma_views_remove<T: View>(v: Seq<T>, i: int)
    requires
        0 <= i < v.len(),
    ensures
        views(v.remove(i)) == views(v).remove(i),
{
    assert(views(v.remove(i)) =~= views(v).remove(i));
}

/// The views of a list go along with replacing an item of it.
pub proof fn lemma_views_update<T: View>(v: Seq<T>, i: int, x: T)
    requires
        0 <= i < v.len(),
    ensures
        views(v.update(i, x)) == views(v).update(i, x@),
{
    assert(views(v.update(i, x)) =~= views(v).update(i, x@));
}

/// The views of two lists in a row are the views of the one after those of the other.
pub proof fn lemma_views_add<T: View>(a: Seq<T>, b: Seq<T>)
    ensures
        views(a + b) == views(a) + views(b),
{
    assert(views(a + b) =~= views(a) + views(b));
}

} // verus!
