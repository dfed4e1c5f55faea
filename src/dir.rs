use vstd::prelude::*;
use crate::file::File;
use crate::names::{compare_names, name_lt, lemma_name_lt_irreflexive, lemma_name_lt_transitive};

verus! {

/// One named child of a directory.
#[derive(Debug, PartialEq)]
pub enum Entry {
    File(File),
    Dir(Dir),
}

/// Why an insertion into a directory was refused.
#[derive(Debug, PartialEq, Eq, Clone, Copy)]
pub enum DirError {
    /// The name is already taken by a file or a directory.
    AlreadyExists,
}

/// A directory: its children, each under a name that no sibling shares.
///
/// The children are kept in strictly increasing name order, so two
/// directories with the same children are equal field by field.
#[derive(Debug, PartialEq)]
pub struct Dir {
    items: Vec<(Vec<u8>, Entry)>,
}

/// The names of a listing strictly increase.
pub open spec fn sorted_names(s: Seq<(Vec<u8>, Entry)>) -> bool {
    forall|i: int, j: int| 0 <= i < j < s.len() ==> name_lt(#[trigger] s[i].0@, #[trigger] s[j].0@)
}

/// No two children of a listing share a name.
pub open spec fn distinct_names(s: Seq<(Vec<u8>, Entry)>) -> bool {
    forall|i: int, j: int| 0 <= i < s.len() && 0 <= j < s.len() && i != j ==> s[i].0@ != s[j].0@
}

/// The mapping from name to entry that a listing describes; where a name
/// occurs twice, the later occurrence wins.
pub open spec fn map_of(s: Seq<(Vec<u8>, Entry)>) -> Map<Seq<u8>, Entry>
    decreases s.len(),
{
    if s.len() == 0 {
        Map::empty()
    } else {
        map_of(s.drop_last()).insert(s.last().0@, s.last().1)
    }
}

/// The result of inserting `e` under `name` where the name is free, or
/// `None` where it is taken.
pub open spec fn add_to(m: Map<Seq<u8>, Entry>, name: Seq<u8>, e: Entry) -> Option<Map<Seq<u8>, Entry>> {
    if m.dom().contains(name) {
        None
    } else {
        Some(m.insert(name, e))
    }
}

proof fn lemma_map_of_dom(s: Seq<(Vec<u8>, Entry)>)
    ensures
        forall|k: Seq<u8>|
            #![trigger map_of(s).dom().contains(k)]
            map_of(s).dom().contains(k) <==> exists|i: int| 0 <= i < s.len() && (#[trigger] s[i]).0@ == k,
    decreases s.len(),
{
    if s.len() > 0 {
        let d = s.drop_last();
        lemma_map_of_dom(d);
        assert forall|k: Seq<u8>|
            #![trigger map_of(s).dom().contains(k)]
            map_of(s).dom().contains(k) <==> exists|i: int| 0 <= i < s.len() && (#[trigger] s[i]).0@ == k by {
            if map_of(d).dom().contains(k) {
                let i = choose|i: int| 0 <= i < d.len() && (#[trigger] d[i]).0@ == k;
                assert(s[i] == d[i]);
            }
            if exists|i: int| 0 <= i < s.len() && (#[trigger] s[i]).0@ == k {
                let i = choose|i: int| 0 <= i < s.len() && (#[trigger] s[i]).0@ == k;
                if i < s.len() - 1 {
                    assert(d[i] == s[i]);
                }
            }
        }
    }
}

proof fn lemma_map_of_value(s: Seq<(Vec<u8>, Entry)>, i: int)
    requires
        distinct_names(s),
        0 <= i < s.len(),
    ensures
        map_of(s).dom().contains(s[i].0@),
        map_of(s)[s[i].0@] == s[i].1,
    decreases s.len(),
{
    let d = s.drop_last();
    if i < s.len() - 1 {
        assert(distinct_names(d)) by {
            assert forall|a: int, b: int| 0 <= a < d.len() && 0 <= b < d.len() && a != b implies d[a].0@ != d[b].0@ by {
                assert(d[a] == s[a] && d[b] == s[b]);
            }
        }
        lemma_map_of_value(d, i);
        assert(d[i] == s[i]);
        assert(s[i].0@ != s[s.len() - 1].0@);
    }
}

/// A directory built from a listing of N children with distinct names has
/// exactly N children.
pub proof fn lemma_map_of_len(s: Seq<(Vec<u8>, Entry)>)
    requires
        distinct_names(s),
    ensures
        map_of(s).dom().finite(),
        map_of(s).dom().len() == s.len(),
    decreases s.len(),
{
    if s.len() > 0 {
        let d = s.drop_last();
        assert(distinct_names(d)) by {
            assert forall|a: int, b: int| 0 <= a < d.len() && 0 <= b < d.len() && a != b implies d[a].0@ != d[b].0@ by {
                assert(d[a] == s[a] && d[b] == s[b]);
            }
        }
        lemma_map_of_len(d);
        lemma_map_of_dom(d);
        let last = s.last().0@;
        if map_of(d).dom().contains(last) {
            let i = choose|i: int| 0 <= i < d.len() && (#[trigger] d[i]).0@ == last;
            assert(d[i] == s[i]);
        }
    }
}

/// A listing in strictly increasing name order repeats no name.
pub proof fn lemma_sorted_distinct(s: Seq<(Vec<u8>, Entry)>)
    requires
        sorted_names(s),
    ensures
        distinct_names(s),
{
    assert forall|i: int, j: int| 0 <= i < s.len() && 0 <= j < s.len() && i != j implies s[i].0@ != s[j].0@ by {
        lemma_name_lt_irreflexive(s[i].0@);
        if i < j {
            assert(name_lt(s[i].0@, s[j].0@));
        } else {
            assert(name_lt(s[j].0@, s[i].0@));
        }
    }
}

/// Two listings without repeated names that hold the same pairs, in any
/// order, describe the same mapping.
proof fn lemma_map_of_ext(s: Seq<(Vec<u8>, Entry)>, t: Seq<(Vec<u8>, Entry)>)
    requires
        distinct_names(s),
        distinct_names(t),
        forall|i: int| 0 <= i < s.len() ==> t.contains(#[trigger] s[i]),
        forall|j: int| 0 <= j < t.len() ==> s.contains(#[trigger] t[j]),
    ensures
        map_of(s) == map_of(t),
{
    lemma_map_of_dom(s);
    lemma_map_of_dom(t);
    assert forall|k: Seq<u8>| #[trigger] map_of(s).dom().contains(k) implies map_of(t).dom().contains(k) && map_of(s)[k] == map_of(t)[k] by {
        let i = choose|i: int| 0 <= i < s.len() && (#[trigger] s[i]).0@ == k;
        assert(t.contains(s[i]));
        let j = choose|j: int| 0 <= j < t.len() && t[j] == s[i];
        lemma_map_of_value(s, i);
        lemma_map_of_value(t, j);
    }
    assert forall|k: Seq<u8>| #[trigger] map_of(t).dom().contains(k) implies map_of(s).dom().contains(k) by {
        let j = choose|j: int| 0 <= j < t.len() && (#[trigger] t[j]).0@ == k;
        assert(s.contains(t[j]));
        let i = choose|i: int| 0 <= i < s.len() && s[i] == t[j];
        assert(s[i].0@ == k);
    }
    assert(map_of(s) =~= map_of(t));
}

/// Putting a child with a fresh name in front of a listing adds that child
/// to the mapping.
proof fn lemma_map_of_prepend(x: (Vec<u8>, Entry), t: Seq<(Vec<u8>, Entry)>)
    requires
        distinct_names(t),
        !map_of(t).dom().contains(x.0@),
    ensures
        distinct_names(seq![x] + t),
        map_of(seq![x] + t) == map_of(t).insert(x.0@, x.1),
{
    lemma_map_of_dom(t);
    let cons = seq![x] + t;
    let ext = t.push(x);
    assert forall|a: int| 0 <= a < t.len() implies t[a].0@ != x.0@ by {
        if t[a].0@ == x.0@ {
            assert(map_of(t).dom().contains(t[a].0@));
        }
    }
    assert(distinct_names(cons)) by {
        assert forall|a: int, b: int| 0 <= a < cons.len() && 0 <= b < cons.len() && a != b implies cons[a].0@ != cons[b].0@ by {
            if a == 0 {
                assert(cons[b] == t[b - 1]);
            } else if b == 0 {
                assert(cons[a] == t[a - 1]);
            } else {
                assert(cons[a] == t[a - 1] && cons[b] == t[b - 1]);
            }
        }
    }
    assert(distinct_names(ext)) by {
        assert forall|a: int, b: int| 0 <= a < ext.len() && 0 <= b < ext.len() && a != b implies ext[a].0@ != ext[b].0@ by {
            if a < t.len() && b < t.len() {
                assert(ext[a] == t[a] && ext[b] == t[b]);
            } else if a < t.len() {
                assert(ext[a] == t[a]);
            } else {
                assert(ext[b] == t[b]);
            }
        }
    }
    assert forall|a: int| 0 <= a < cons.len() implies ext.contains(cons[a]) by {
        if a == 0 {
            assert(cons[0] == x);
            assert(ext[t.len() as int] == x);
            assert(cons[a] == ext[t.len() as int]);
        } else {
            assert(cons[a] == t[a - 1]);
            assert(ext[a - 1] == t[a - 1]);
            assert(cons[a] == ext[a - 1]);
        }
    }
    assert forall|b: int| 0 <= b < ext.len() implies cons.contains(ext[b]) by {
        if b < t.len() {
            assert(cons[b + 1] == ext[b]);
        } else {
            assert(cons[0] == ext[b]);
        }
    }
    lemma_map_of_ext(cons, ext);
    assert(ext.drop_last() =~= t);
}

impl Dir {
    #[verifier::type_invariant]
    closed spec fn inv(self) -> bool {
        sorted_names(self.items@)
    }

    /// The children, in the order in which they are stored.
    pub closed spec fn listing(self) -> Seq<(Vec<u8>, Entry)> {
        self.items@
    }

    /// The children, by name.
    pub open spec fn contents(self) -> Map<Seq<u8>, Entry> {
        map_of(self.listing())
    }

    /// An empty directory.
    pub fn new() -> (r: Dir)
        ensures
            r.listing() == Seq::<(Vec<u8>, Entry)>::empty(),
            r.contents() == Map::<Seq<u8>, Entry>::empty(),
    {
        Dir { items: Vec::new() }
    }
}

impl Dir {
    /// The first position whose name does not sort before `name`, and whether
    /// the name stored there is `name` itself.
    fn find_slot(&self, name: &[u8]) -> (r: (usize, bool))
        ensures
            r.0 <= self.listing().len(),
            forall|i: int| 0 <= i < r.0 ==> name_lt(#[trigger] self.listing()[i].0@, name@),
            r.1 ==> r.0 < self.listing().len() && self.listing()[r.0 as int].0@ == name@,
            !r.1 ==> forall|j: int| r.0 <= j < self.listing().len() ==> name_lt(name@, #[trigger] self.listing()[j].0@),
    {
        proof { use_type_invariant(self); }
        let mut i: usize = 0;
        while i < self.items.len()
            invariant
                i <= self.items@.len(),
                sorted_names(self.items@),
                forall|k: int| 0 <= k < i ==> name_lt(#[trigger] self.items@[k].0@, name@),
            decreases self.items@.len() - i,
        {
            let c = compare_names(self.items[i].0.as_slice(), name);
            match c {
                core::cmp::Ordering::Less => {},
                core::cmp::Ordering::Equal => {
                    return (i, true);
                },
                core::cmp::Ordering::Greater => {
                    proof {
                        let here = self.items@[i as int].0@;
                        assert forall|j: int| i <= j < self.items@.len() implies name_lt(name@, #[trigger] self.items@[j].0@) by {
                            if j > i {
                                lemma_name_lt_transitive(name@, here, self.items@[j].0@);
                            }
                        }
                    }
                    return (i, false);
                },
            }
            i = i + 1;
        }
        (i, false)
    }

    /// Inserts `e` under `name` where the name is free.
    fn add_entry(&mut self, name: Vec<u8>, e: Entry) -> (r: Result<(), DirError>)
        ensures
            match add_to(old(self).contents(), name@, e) {
                None => r == Err::<(), DirError>(DirError::AlreadyExists) && *final(self) == *old(self),
                Some(m) => r is Ok && final(self).contents() == m
                    && final(self).listing().len() == old(self).listing().len() + 1,
            },
    {
        proof {
            use_type_invariant(&*self);
            lemma_sorted_distinct(self.items@);
            lemma_map_of_dom(self.items@);
        }
        let (p, found) = self.find_slot(name.as_slice());
        if found {
            proof { lemma_map_of_value(self.items@, p as int); }
            return Err(DirError::AlreadyExists);
        }
        let ghost before = self.items@;
        let ghost key = name@;
        proof {
            assert(!map_of(before).dom().contains(key)) by {
                if map_of(before).dom().contains(key) {
                    let k = choose|k: int| 0 <= k < before.len() && (#[trigger] before[k]).0@ == key;
                    lemma_name_lt_irreflexive(key);
                    if k < p {
                        assert(name_lt(before[k].0@, key));
                    } else {
                        assert(name_lt(key, before[k].0@));
                    }
                }
            }
        }
        let mut items: Vec<(Vec<u8>, Entry)> = Vec::new();
        std::mem::swap(&mut items, &mut self.items);
        items.insert(p, (name, e));
        let ghost after = items@;
        proof {
            assert(sorted_names(after)) by {
                assert forall|a: int, b: int| 0 <= a < b < after.len() implies name_lt(#[trigger] after[a].0@, #[trigger] after[b].0@) by {
                    if b < p {
                        assert(after[a] == before[a] && after[b] == before[b]);
                    } else if b == p {
                        assert(after[a] == before[a]);
                    } else if a < p {
                        assert(after[a] == before[a] && after[b] == before[b - 1]);
                        lemma_name_lt_transitive(before[a].0@, key, before[b - 1].0@);
                    } else if a == p {
                        assert(after[b] == before[b - 1]);
                    } else {
                        assert(after[a] == before[a - 1] && after[b] == before[b - 1]);
                    }
                }
            }
            lemma_sorted_distinct(after);
            let ext = before.push(after[p as int]);
            assert(distinct_names(ext)) by {
                assert forall|a: int, b: int| 0 <= a < ext.len() && 0 <= b < ext.len() && a != b implies ext[a].0@ != ext[b].0@ by {
                    if a < before.len() && b < before.len() {
                        assert(ext[a] == before[a] && ext[b] == before[b]);
                    } else if a < before.len() {
                        assert(ext[a] == before[a]);
                        assert(map_of(before).dom().contains(ext[a].0@));
                    } else {
                        assert(ext[b] == before[b]);
                        assert(map_of(before).dom().contains(ext[b].0@));
                    }
                }
            }
            assert forall|a: int| 0 <= a < after.len() implies ext.contains(after[a]) by {
                if a < p {
                    assert(after[a] == ext[a]);
                } else if a == p {
                    assert(after[a] == ext[before.len() as int]);
                } else {
                    assert(after[a] == ext[a - 1]);
                }
            }
            assert forall|b: int| 0 <= b < ext.len() implies after.contains(ext[b]) by {
                if b < p {
                    assert(after[b] == ext[b]);
                } else if b < before.len() {
                    assert(after[b + 1] == ext[b]);
                } else {
                    assert(after[p as int] == ext[b]);
                }
            }
            lemma_map_of_ext(after, ext);
            assert(ext.drop_last() =~= before);
        }
        self.items = items;
        Ok(())
    }

    /// Adds `file` under `name`, unless a file or directory already has that
    /// name: then the directory is left as it was.
    pub fn add_file(&mut self, name: Vec<u8>, file: File) -> (r: Result<(), DirError>)
        ensures
            match add_to(old(self).contents(), name@, Entry::File(file)) {
                None => r == Err::<(), DirError>(DirError::AlreadyExists) && *final(self) == *old(self),
                Some(m) => r is Ok && final(self).contents() == m,
            },
    {
        self.add_entry(name, Entry::File(file))
    }

    /// Adds `dir` under `name`, unless a file or directory already has that
    /// name: then the directory is left as it was.
    pub fn add_dir(&mut self, name: Vec<u8>, dir: Dir) -> (r: Result<(), DirError>)
        ensures
            match add_to(old(self).contents(), name@, Entry::Dir(dir)) {
                None => r == Err::<(), DirError>(DirError::AlreadyExists) && *final(self) == *old(self),
                Some(m) => r is Ok && final(self).contents() == m,
            },
    {
        self.add_entry(name, Entry::Dir(dir))
    }
}

impl Dir {
    /// The children with their names, borrowed. Names strictly increase
    /// along the slice, and there is one element per child.
    pub fn entries(&self) -> (r: &[(Vec<u8>, Entry)])
        ensures
            r@ == self.listing(),
            sorted_names(r@),
            distinct_names(r@),
            map_of(r@) == self.contents(),
            self.contents().dom().finite(),
            r@.len() == self.contents().dom().len(),
    {
        proof {
            use_type_invariant(self);
            lemma_sorted_distinct(self.items@);
            lemma_map_of_len(self.items@);
        }
        self.items.as_slice()
    }

    /// Builds a directory from a listing of its children, as read from a
    /// directory on disk. Fails where two children share a name.
    pub fn from_entries(children: Vec<(Vec<u8>, Entry)>) -> (r: Result<Dir, DirError>)
        ensures
            r is Ok <==> distinct_names(children@),
            r is Err ==> r == Err::<Dir, DirError>(DirError::AlreadyExists),
            r matches Ok(d) ==> d.contents() == map_of(children@)
                && d.contents().dom().len() == children@.len(),
    {
        let ghost all = children@;
        let mut rest = children;
        let mut dir = Dir::new();
        while rest.len() > 0
            invariant
                all == children@,
                rest@.len() <= all.len(),
                rest@ == all.subrange(0, rest@.len() as int),
                distinct_names(all.subrange(rest@.len() as int, all.len() as int)),
                dir.contents() == map_of(all.subrange(rest@.len() as int, all.len() as int)),
            decreases rest@.len(),
        {
            let ghost k = rest@.len() - 1;
            let ghost tail = all.subrange(k + 1, all.len() as int);
            let (name, e) = rest.pop().unwrap();
            let ghost x = all[k];
            assert(x == (name, e));
            let ghost cons = all.subrange(k, all.len() as int);
            assert(cons =~= seq![x] + tail);
            proof { lemma_map_of_dom(tail); }
            match dir.add_entry(name, e) {
                Ok(()) => {
                    proof { lemma_map_of_prepend(x, tail); }
                },
                Err(err) => {
                    proof {
                        assert(map_of(tail).dom().contains(x.0@));
                        let j = choose|j: int| 0 <= j < tail.len() && (#[trigger] tail[j]).0@ == x.0@;
                        assert(all[k] == x && all[k + 1 + j] == tail[j]);
                        assert(all[k].0@ == all[k + 1 + j].0@);
                        assert(!distinct_names(all));
                        assert(!distinct_names(children@));
                    }
                    return Err(err);
                },
            }
        }
        proof {
            assert(all.subrange(0, all.len() as int) =~= all);
            lemma_map_of_len(all);
        }
        Ok(dir)
    }
}

/// Once a name has been added, adding anything else under it again is
/// refused.
pub proof fn lemma_duplicate_rejected(m: Map<Seq<u8>, Entry>, name: Seq<u8>, first: Entry, second: Entry)
    requires
        add_to(m, name, first) is Some,
    ensures
        add_to(add_to(m, name, first)->0, name, second) is None,
{
}

/// The listing that `entries` hands out rebuilds, through `from_entries`, a
/// directory with the same children: its names are distinct, and its mapping
/// is the directory's own.
pub proof fn lemma_listing_rebuilds(d: Dir, s: Seq<(Vec<u8>, Entry)>)
    requires
        s == d.listing(),
        sorted_names(s),
    ensures
        distinct_names(s),
        map_of(s) == d.contents(),
        map_of(s).dom().len() == s.len(),
{
    lemma_sorted_distinct(s);
    lemma_map_of_len(s);
}

} // verus!
