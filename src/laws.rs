//! Laws that relate the store's operations to one another.
use vstd::prelude::*;

use crate::store::{lookup, state_of_log, KvStore};

verus! {

/// After `set(k, v)`, `get(k)` gives `v`.
pub proof fn law_set_then_get(before: KvStore, after: KvStore, k: Seq<char>, v: Seq<char>)
    requires
        before.wf(),
        after@ == before@.insert(k, v),
    ensures
        lookup(after@, k) == Some(v),
{
}

/// After `set(k, v1)` and then `set(k, v2)`, `get(k)` gives `v2`, never an
/// earlier value.
pub proof fn law_overwrite(
    s0: KvStore,
    s1: KvStore,
    s2: KvStore,
    k: Seq<char>,
    v1: Seq<char>,
    v2: Seq<char>,
)
    requires
        s0.wf(),
        s1@ == s0@.insert(k, v1),
        s2@ == s1@.insert(k, v2),
    ensures
        lookup(s2@, k) == Some(v2),
        v1 != v2 ==> lookup(s2@, k) != Some(v1),
{
}

/// After `set(k, v)` and then `remove(k)`, `get(k)` gives `None`.
pub proof fn law_remove_then_get(s0: KvStore, s1: KvStore, s2: KvStore, k: Seq<char>, v: Seq<char>)
    requires
        s0.wf(),
        s1@ == s0@.insert(k, v),
        s2@ == s1@.remove(k),
    ensures
        lookup(s2@, k) is None,
{
}

/// A store opened over the log of another holds the same contents: every
/// key gives the same `get` in both.
pub proof fn law_reopen(s: KvStore, reopened: KvStore, k: Seq<char>)
    requires
        s.wf(),
        reopened@ == state_of_log(s.log_bytes()),
    ensures
        reopened@ == s@,
        lookup(reopened@, k) == lookup(s@, k),
{
    s.lemma_view_is_replay();
}

} // verus!
