//! The page index: an immutable mapping from (title, namespace) to pages,
//! together with the derived set of all known page ids. It is built once,
//! before link resolution starts, and only read afterwards.

use vstd::prelude::*;
use fnv::FnvHashSet;
use crate::pages::Page;
use crate::pages::PageView;

verus! {

#[verifier::external_type_specification]
#[verifier::external_body]
pub struct ExFnvHasher(fnv::FnvHasher);

#[verifier::external_type_specification]
#[verifier::external_body]
#[verifier::reject_recursive_types(H)]
pub struct ExBuildHasherDefault<H>(core::hash::BuildHasherDefault<H>);

/// Relies on fnv's `FnvHashSet::default` (std's `HashSet` keyed by the
/// deterministic FNV hasher): it makes an empty set.
#[verifier::external_body]
fn id_set_new() -> (s: FnvHashSet<u64>)
    ensures
        s@ == Set::<u64>::empty(),
{
    FnvHashSet::default()
}

/// Relies on `HashSet::insert`: afterwards the set holds the value and
/// everything it held before.
#[verifier::external_body]
fn id_set_insert(s: &mut FnvHashSet<u64>, id: u64)
    ensures
        final(s)@ == old(s)@.insert(id),
{
    s.insert(id);
}

/// Relies on `HashSet::remove`: afterwards the set holds everything it
/// held before except the value.
#[verifier::external_body]
fn id_set_remove(s: &mut FnvHashSet<u64>, id: u64)
    ensures
        final(s)@ == old(s)@.remove(id),
{
    s.remove(&id);
}

/// Relies on `HashSet::contains`: whether the set holds the value.
#[verifier::external_body]
fn id_set_contains(s: &FnvHashSet<u64>, id: u64) -> (r: bool)
    ensures
        r == s@.contains(id),
{
    s.contains(&id)
}

/// The lookup key of a page: its normalized title and its namespace.
pub open spec fn page_key(p: PageView) -> (Seq<char>, u32) {
    (p.title, p.namespace)
}

/// The mapping described by a sequence of pages, later pages overriding
/// earlier ones with the same key.
pub open spec fn map_of(s: Seq<Page>) -> Map<(Seq<char>, u32), PageView>
    decreases s.len(),
{
    if s.len() == 0 {
        Map::empty()
    } else {
        map_of(s.drop_last()).insert(page_key(s.last()@), s.last()@)
    }
}

/// The ids occurring in a sequence of pages.
pub open spec fn seq_ids(s: Seq<Page>) -> Set<u64> {
    Set::new(|id: u64| exists|i: int| 0 <= i < s.len() && s[i].pageid == id)
}

/// The ids of the values of a page mapping.
pub open spec fn ids_of(m: Map<(Seq<char>, u32), PageView>) -> Set<u64> {
    Set::new(
        |id: u64|
            exists|k: (Seq<char>, u32)| #[trigger] m.contains_key(k) && m[k].pageid == id,
    )
}

/// An immutable mapping from (title, namespace) to pages, plus the
/// derived set of all known page ids.
pub struct PageIndex {
    entries: Vec<Page>,
    ids: FnvHashSet<u64>,
}

impl PageIndex {
    /// The entries carry pairwise distinct keys and the id set holds
    /// exactly their ids.
    pub closed spec fn wf(&self) -> bool {
        &&& forall|i: int, j: int|
            0 <= i < j < self.entries@.len() ==> page_key(#[trigger] self.entries@[i]@)
                != page_key(#[trigger] self.entries@[j]@)
        &&& self.ids@ == seq_ids(self.entries@)
    }

    /// The mapping this index holds.
    pub closed spec fn contents(&self) -> Map<(Seq<char>, u32), PageView> {
        map_of(self.entries@)
    }

    /// The set of all known page ids: the ids of the mapping's values.
    pub open spec fn known_ids(&self) -> Set<u64> {
        ids_of(self.contents())
    }

    /// An empty index.
    pub fn new() -> (r: PageIndex)
        ensures
            r.wf(),
            r.contents() == Map::<(Seq<char>, u32), PageView>::empty(),
    {
        let r = PageIndex { entries: Vec::new(), ids: id_set_new() };
        proof {
            assert(r.ids@ =~= seq_ids(r.entries@));
        }
        r
    }

    /// The number of pages the index holds.
    pub fn len(&self) -> (n: usize)
        requires
            self.wf(),
        ensures
            n == self.contents().dom().len(),
    {
        proof {
            lemma_map_of_entries(self.entries@);
        }
        self.entries.len()
    }

    /// Put a page into the index; on a duplicate (title, namespace) key
    /// the new page wins.
    #[verifier::loop_isolation(false)]
    pub fn insert(&mut self, p: Page)
        requires
            old(self).wf(),
        ensures
            final(self).wf(),
            final(self).contents() == old(self).contents().insert(page_key(p@), p@),
    {
        let ghost s0 = self.entries@;
        let pid = p.pageid;
        proof {
            lemma_map_of_entries(s0);
        }
        match find_key(&self.entries, p.namespace, &p.title) {
            Some(j) => {
                let old_id = self.entries[j].pageid;
                self.entries.set(j, p);
                let ghost sn = self.entries@;
                proof {
                    lemma_map_of_update(s0, j as int, sn[j as int]);
                    assert(sn =~= s0.update(j as int, sn[j as int]));
                }
                let still_there = has_entry_id(&self.entries, old_id);
                if !still_there {
                    id_set_remove(&mut self.ids, old_id);
                }
                id_set_insert(&mut self.ids, pid);
                proof {
                    let target = if !still_there {
                        seq_ids(s0).remove(old_id).insert(pid)
                    } else {
                        seq_ids(s0).insert(pid)
                    };
                    assert(self.ids@ == target);
                    assert forall|id: u64| target.contains(id) implies seq_ids(sn).contains(
                        id,
                    ) by {
                        if id == pid {
                            assert(sn[j as int].pageid == id);
                        } else {
                            let i = choose|i: int| 0 <= i < s0.len() && s0[i].pageid == id;
                            if i == j as int {
                                // only possible in the still_there case, where some
                                // entry of sn carries old_id
                                assert(seq_ids(sn).contains(old_id));
                            } else {
                                assert(sn[i].pageid == id);
                            }
                        }
                    };
                    assert forall|id: u64| seq_ids(sn).contains(id) implies target.contains(
                        id,
                    ) by {
                        let i = choose|i: int| 0 <= i < sn.len() && sn[i].pageid == id;
                        if i == j as int {
                            assert(id == pid);
                        } else {
                            assert(s0[i].pageid == id);
                            if !still_there && id == old_id {
                                assert(sn[i].pageid == old_id);
                                assert(seq_ids(sn).contains(old_id));
                                assert(false);
                            }
                        }
                    };
                    assert(self.ids@ =~= seq_ids(sn));
                }
            },
            None => {
                self.entries.push(p);
                id_set_insert(&mut self.ids, pid);
                proof {
                    let sn = self.entries@;
                    assert(sn.drop_last() =~= s0);
                    assert(sn.last().pageid == pid);
                    assert forall|id: u64| self.ids@.contains(id) implies seq_ids(sn).contains(
                        id,
                    ) by {
                        if id == pid {
                            assert(sn[s0.len() as int].pageid == id);
                        } else {
                            let i = choose|i: int| 0 <= i < s0.len() && s0[i].pageid == id;
                            assert(sn[i].pageid == id);
                        }
                    };
                    assert forall|id: u64| seq_ids(sn).contains(id) implies self.ids@.contains(
                        id,
                    ) by {
                        let i = choose|i: int| 0 <= i < sn.len() && sn[i].pageid == id;
                        if i < s0.len() {
                            assert(s0[i].pageid == id);
                        }
                    };
                    assert(self.ids@ =~= seq_ids(sn));
                }
            },
        }
    }

    /// Whether some page in the index has this id.
    pub fn contains_id(&self, id: u64) -> (r: bool)
        requires
            self.wf(),
        ensures
            r == self.known_ids().contains(id),
    {
        proof {
            lemma_map_of_entries(self.entries@);
            lemma_known_ids_are_entry_ids(self.entries@);
        }
        id_set_contains(&self.ids, id)
    }

    /// Look the page up that carries this (title, namespace) key.
    #[verifier::loop_isolation(false)]
    pub fn lookup(&self, title: &String, namespace: u32) -> (r: Option<&Page>)
        requires
            self.wf(),
        ensures
            match r {
                Some(p) => self.contents().contains_key((title@, namespace)) && self.contents()[
                    (title@, namespace)
                ] == p@,
                None => !self.contents().contains_key((title@, namespace)),
            },
    {
        proof {
            lemma_map_of_entries(self.entries@);
        }
        let mut i: usize = 0;
        while i < self.entries.len()
            invariant
                i <= self.entries@.len(),
                forall|w: int|
                    0 <= w < i ==> page_key(#[trigger] self.entries@[w]@) != (title@, namespace),
            decreases self.entries@.len() - i,
        {
            let e = &self.entries[i];
            if e.namespace == namespace && e.title == *title {
                proof {
                    assert(page_key(self.entries@[i as int]@) == (title@, namespace));
                    assert(self.contents().contains_key(page_key(self.entries@[i as int]@))
                        && self.contents()[page_key(self.entries@[i as int]@)]
                        == self.entries@[i as int]@);
                }
                return Some(e);
            }
            i += 1;
        }
        None
    }
}

/// The position of the entry that carries this (title, namespace) key.
fn find_key(entries: &Vec<Page>, namespace: u32, title: &String) -> (r: Option<usize>)
    ensures
        match r {
            Some(j) => j < entries@.len() && page_key(entries@[j as int]@) == (title@, namespace),
            None => forall|i: int|
                0 <= i < entries@.len() ==> page_key(#[trigger] entries@[i]@) != (
                title@,
                namespace,
            ),
        },
{
    let mut i: usize = 0;
    while i < entries.len()
        invariant
            i <= entries@.len(),
            forall|w: int|
                0 <= w < i ==> page_key(#[trigger] entries@[w]@) != (title@, namespace),
        decreases entries@.len() - i,
    {
        let e = &entries[i];
        if e.namespace == namespace && e.title == *title {
            return Some(i);
        }
        i += 1;
    }
    None
}

/// Whether some entry carries this id.
fn has_entry_id(entries: &Vec<Page>, id: u64) -> (r: bool)
    ensures
        r == seq_ids(entries@).contains(id),
{
    let mut i: usize = 0;
    while i < entries.len()
        invariant
            i <= entries@.len(),
            forall|w: int| 0 <= w < i ==> entries@[w].pageid != id,
        decreases entries@.len() - i,
    {
        if entries[i].pageid == id {
            return true;
        }
        i += 1;
    }
    false
}

/// With pairwise distinct keys, the mapping of a page sequence holds
/// exactly the keys of the pages, each bound to its page.
proof fn lemma_map_of_entries(s: Seq<Page>)
    requires
        forall|i: int, j: int|
            0 <= i < j < s.len() ==> page_key(#[trigger] s[i]@) != page_key(#[trigger] s[j]@),
    ensures
        forall|k: (Seq<char>, u32)|
            #[trigger] map_of(s).contains_key(k) <==> exists|i: int|
                0 <= i < s.len() && page_key(#[trigger] s[i]@) == k,
        forall|i: int|
            0 <= i < s.len() ==> map_of(s).contains_key(page_key(#[trigger] s[i]@)) && map_of(s)[
                page_key(s[i]@)
            ] == s[i]@,
        map_of(s).dom().finite(),
        map_of(s).dom().len() == s.len(),
    decreases s.len(),
{
    broadcast use vstd::set::group_set_axioms;

    if s.len() > 0 {
        lemma_map_of_entries(s.drop_last());
        assert forall|k: (Seq<char>, u32)| #[trigger]
            map_of(s).contains_key(k) implies exists|i: int|
            0 <= i < s.len() && page_key(#[trigger] s[i]@) == k by {
            if k == page_key(s.last()@) {
                assert(page_key(s[s.len() - 1]@) == k);
            } else {
                let i = choose|i: int|
                    0 <= i < s.drop_last().len() && page_key(#[trigger] s.drop_last()[i]@) == k;
                assert(page_key(s[i]@) == k);
            }
        };
        assert forall|i: int| 0 <= i < s.len() implies map_of(s).contains_key(
            page_key(#[trigger] s[i]@),
        ) && map_of(s)[page_key(s[i]@)] == s[i]@ by {
            if i < s.len() - 1 {
                assert(s.drop_last()[i] == s[i]);
                assert(page_key(s[i]@) != page_key(s.last()@));
            }
        };
        assert(!map_of(s.drop_last()).contains_key(page_key(s.last()@)));
        assert(map_of(s).dom() =~= map_of(s.drop_last()).dom().insert(page_key(s.last()@)));
    }
}

/// With pairwise distinct keys, the ids of the mapping's values are the
/// ids of the entries.
proof fn lemma_known_ids_are_entry_ids(s: Seq<Page>)
    requires
        forall|i: int, j: int|
            0 <= i < j < s.len() ==> page_key(#[trigger] s[i]@) != page_key(#[trigger] s[j]@),
    ensures
        ids_of(map_of(s)) == seq_ids(s),
{
    lemma_map_of_entries(s);
    assert forall|id: u64| ids_of(map_of(s)).contains(id) implies seq_ids(s).contains(id) by {
        let k = choose|k: (Seq<char>, u32)|
            #[trigger] map_of(s).contains_key(k) && map_of(s)[k].pageid == id;
        let i = choose|i: int| 0 <= i < s.len() && page_key(#[trigger] s[i]@) == k;
        assert(map_of(s)[k] == s[i]@);
        assert(s[i].pageid == id);
    };
    assert forall|id: u64| seq_ids(s).contains(id) implies ids_of(map_of(s)).contains(id) by {
        let i = choose|i: int| 0 <= i < s.len() && s[i].pageid == id;
        assert(map_of(s).contains_key(page_key(s[i]@)) && map_of(s)[page_key(s[i]@)].pageid == id);
    };
    assert(ids_of(map_of(s)) =~= seq_ids(s));
}

/// Updating the entry that carries a key updates the mapping at that key.
proof fn lemma_map_of_update(s: Seq<Page>, j: int, p: Page)
    requires
        0 <= j < s.len(),
        forall|i: int, w: int|
            0 <= i < w < s.len() ==> page_key(#[trigger] s[i]@) != page_key(#[trigger] s[w]@),
        page_key(s[j]@) == page_key(p@),
    ensures
        map_of(s.update(j, p)) == map_of(s).insert(page_key(p@), p@),
    decreases s.len(),
{
    let t = s.update(j, p);
    if j == s.len() - 1 {
        assert(t.drop_last() =~= s.drop_last());
        assert(t.last() == p);
        assert(map_of(t) == map_of(s.drop_last()).insert(page_key(p@), p@));
        assert(map_of(s) == map_of(s.drop_last()).insert(page_key(s.last()@), s.last()@));
        assert(map_of(s).insert(page_key(p@), p@) =~= map_of(s.drop_last()).insert(
            page_key(p@),
            p@,
        ));
    } else {
        assert(t.drop_last() =~= s.drop_last().update(j, p));
        assert(t.last() == s.last());
        lemma_map_of_update(s.drop_last(), j, p);
        assert(map_of(t) == map_of(s.drop_last()).insert(page_key(p@), p@).insert(
            page_key(s.last()@),
            s.last()@,
        ));
        assert(page_key(s.last()@) != page_key(p@));
        assert(map_of(s.drop_last()).insert(page_key(p@), p@).insert(
            page_key(s.last()@),
            s.last()@,
        ) =~= map_of(s.drop_last()).insert(page_key(s.last()@), s.last()@).insert(
            page_key(p@),
            p@,
        ));
    }
}

} // verus!
