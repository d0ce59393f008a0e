use vstd::prelude::*;

verus! {

/// `ks` names every key of `m` exactly once.
pub open spec fn lists_keys<V>(ks: Seq<String>, m: Map<Seq<char>, V>) -> bool {
    &&& forall|i: int| 0 <= i < ks.len() ==> #[trigger] m.contains_key(ks[i]@)
    &&& forall|k: Seq<char>| #[trigger]
        m.contains_key(k) ==> exists|i: int| 0 <= i < ks.len() && #[trigger] ks[i]@ == k
    &&& forall|i: int, j: int| 0 <= i < j < ks.len() ==> #[trigger] ks[i]@ != #[trigger] ks[j]@
}

} // verus!
