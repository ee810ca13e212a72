//! The set of named files: a map from file name to content that is walked in
//! ascending order of the names, where names are ordered as strings are,
//! byte by byte over their UTF-8 encoding.

use crate::merkle_tree::blobs_view;
use vstd::prelude::*;
use vstd::utf8::{decode_utf8, encode_utf8, encode_utf8_decode_utf8, encode_utf8_valid_utf8};

verus! {

/// Whether `a` comes before `b` in lexicographic byte order.
pub open spec fn bytes_before(a: Seq<u8>, b: Seq<u8>) -> bool
    decreases a.len(),
{
    if b.len() == 0 {
        false
    } else if a.len() == 0 {
        true
    } else if a[0] != b[0] {
        a[0] < b[0]
    } else {
        bytes_before(a.drop_first(), b.drop_first())
    }
}

/// Whether the name `a` sorts before the name `b`.
pub open spec fn name_before(a: Seq<char>, b: Seq<char>) -> bool {
    bytes_before(encode_utf8(a), encode_utf8(b))
}

/// The names of `entries` strictly ascend; in particular no name occurs
/// twice.
pub open spec fn ascending(entries: Seq<(Seq<char>, Seq<u8>)>) -> bool {
    forall|i: int, j: int|
        0 <= i < j < entries.len() ==> name_before(
            (#[trigger] entries[i]).0,
            (#[trigger] entries[j]).0,
        )
}

/// Whether some entry of `entries` is named `name`.
pub open spec fn has_name(entries: Seq<(Seq<char>, Seq<u8>)>, name: Seq<char>) -> bool {
    exists|i: int| 0 <= i < entries.len() && (#[trigger] entries[i]).0 == name
}

/// The place of the entry named `name` in `entries`, where there is one.
pub open spec fn index_of(entries: Seq<(Seq<char>, Seq<u8>)>, name: Seq<char>) -> int {
    choose|i: int| 0 <= i < entries.len() && (#[trigger] entries[i]).0 == name
}

/// The map from name to content that `entries` lists.
pub open spec fn entries_map(entries: Seq<(Seq<char>, Seq<u8>)>) -> Map<Seq<char>, Seq<u8>> {
    Map::new(
        |name: Seq<char>| has_name(entries, name),
        |name: Seq<char>| entries[index_of(entries, name)].1,
    )
}

/// The contents of `entries`, in the same order.
pub open spec fn contents_of(entries: Seq<(Seq<char>, Seq<u8>)>) -> Seq<Seq<u8>> {
    Seq::new(entries.len(), |i: int| entries[i].1)
}

/// A list of entries as plain values.
pub open spec fn entries_view(entries: Seq<(String, Vec<u8>)>) -> Seq<(Seq<char>, Seq<u8>)> {
    Seq::new(entries.len(), |i: int| (entries[i].0@, entries[i].1@))
}

/// No byte string comes before itself.
pub proof fn lemma_before_irreflexive(a: Seq<u8>)
    ensures
        !bytes_before(a, a),
    decreases a.len(),
{
    if a.len() > 0 {
        lemma_before_irreflexive(a.drop_first());
    }
}

/// What comes before something that comes before a third comes before the
/// third.
pub proof fn lemma_before_transitive(a: Seq<u8>, b: Seq<u8>, c: Seq<u8>)
    requires
        bytes_before(a, b),
        bytes_before(b, c),
    ensures
        bytes_before(a, c),
    decreases a.len(),
{
    if a.len() > 0 && a[0] == b[0] && b[0] == c[0] {
        lemma_before_transitive(a.drop_first(), b.drop_first(), c.drop_first());
    }
}

/// In an ascending list, a name is found at one place only.
pub proof fn lemma_name_once(entries: Seq<(Seq<char>, Seq<u8>)>, i: int, j: int)
    requires
        ascending(entries),
        0 <= i < entries.len(),
        0 <= j < entries.len(),
        entries[i].0 == entries[j].0,
    ensures
        i == j,
{
    lemma_before_irreflexive(encode_utf8(entries[i].0));
}

/// In an ascending list, the map gives each entry's content under its name.
pub proof fn lemma_entry_in_map(entries: Seq<(Seq<char>, Seq<u8>)>, i: int)
    requires
        ascending(entries),
        0 <= i < entries.len(),
    ensures
        entries_map(entries).contains_key(entries[i].0),
        entries_map(entries)[entries[i].0] == entries[i].1,
        index_of(entries, entries[i].0) == i,
{
    lemma_name_once(entries, i, index_of(entries, entries[i].0));
}

/// Putting a new name in its place adds it to the map.
pub proof fn lemma_insert_entry(
    entries: Seq<(Seq<char>, Seq<u8>)>,
    k: int,
    name: Seq<char>,
    content: Seq<u8>,
)
    requires
        ascending(entries),
        0 <= k <= entries.len(),
        forall|i: int| 0 <= i < k ==> name_before((#[trigger] entries[i]).0, name),
        forall|i: int| k <= i < entries.len() ==> name_before(name, (#[trigger] entries[i]).0),
    ensures
        ascending(entries.insert(k, (name, content))),
        !has_name(entries, name),
        entries_map(entries.insert(k, (name, content))) == entries_map(entries).insert(
            name,
            content,
        ),
{
    let after = entries.insert(k, (name, content));
    assert forall|i: int, j: int| 0 <= i < j < after.len() implies name_before(
        (#[trigger] after[i]).0,
        (#[trigger] after[j]).0,
    ) by {
        let oi = if i < k { i } else { i - 1 };
        let oj = if j < k { j } else { j - 1 };
        if i != k && j != k {
            assert(after[i] == entries[oi] && after[j] == entries[oj]);
        } else if i == k {
            assert(after[j] == entries[oj]);
        } else {
            assert(after[i] == entries[oi]);
        }
    }
    lemma_before_irreflexive(encode_utf8(name));
    assert(!has_name(entries, name));
    assert(after[k] == (name, content));
    assert forall|n: Seq<char>| has_name(after, n) <==> (n == name || has_name(entries, n)) by {
        if has_name(after, n) {
            let i = index_of(after, n);
            if i != k {
                let oi = if i < k { i } else { i - 1 };
                assert(entries[oi] == after[i]);
            }
        }
        if has_name(entries, n) {
            let oi = index_of(entries, n);
            let i = if oi < k { oi } else { oi + 1 };
            assert(after[i] == entries[oi]);
        }
    }
    assert forall|n: Seq<char>| has_name(after, n) implies #[trigger] entries_map(after)[n]
        == entries_map(entries).insert(name, content)[n] by {
        let i = index_of(after, n);
        if i == k {
        } else {
            let oi = if i < k { i } else { i - 1 };
            assert(entries[oi] == after[i]);
            lemma_entry_in_map(entries, oi);
        }
    }
    assert(entries_map(after) =~= entries_map(entries).insert(name, content));
}

/// Replacing the content of an entry replaces it in the map.
pub proof fn lemma_replace_entry(entries: Seq<(Seq<char>, Seq<u8>)>, k: int, content: Seq<u8>)
    requires
        ascending(entries),
        0 <= k < entries.len(),
    ensures
        ascending(entries.update(k, (entries[k].0, content))),
        entries_map(entries.update(k, (entries[k].0, content))) == entries_map(entries).insert(
            entries[k].0,
            content,
        ),
{
    let name = entries[k].0;
    let after = entries.update(k, (name, content));
    assert forall|i: int, j: int| 0 <= i < j < after.len() implies name_before(
        (#[trigger] after[i]).0,
        (#[trigger] after[j]).0,
    ) by {
        assert(after[i].0 == entries[i].0 && after[j].0 == entries[j].0);
    }
    assert forall|n: Seq<char>| has_name(after, n) <==> (n == name || has_name(entries, n)) by {
        if has_name(after, n) {
            let i = index_of(after, n);
            assert(entries[i].0 == after[i].0);
        }
        if has_name(entries, n) {
            let i = index_of(entries, n);
            assert(after[i].0 == entries[i].0);
        }
        assert(after[k].0 == name);
    }
    assert forall|n: Seq<char>| has_name(after, n) implies #[trigger] entries_map(after)[n]
        == entries_map(entries).insert(name, content)[n] by {
        let i = index_of(after, n);
        assert(entries[i].0 == after[i].0);
        if n == name {
            lemma_name_once(entries, i, k);
        } else {
            lemma_entry_in_map(entries, i);
        }
    }
    assert(entries_map(after) =~= entries_map(entries).insert(name, content));
}

/// The order of the files is that of their names: two ascending lists of
/// the same files are the same list.
pub proof fn lemma_listing_unique(
    first: Seq<(Seq<char>, Seq<u8>)>,
    second: Seq<(Seq<char>, Seq<u8>)>,
)
    requires
        ascending(first),
        ascending(second),
        entries_map(first) == entries_map(second),
    ensures
        first == second,
    decreases first.len(),
{
    if first.len() == 0 || second.len() == 0 {
        if first.len() > 0 {
            lemma_entry_in_map(first, 0);
            assert(has_name(second, first[0].0));
        }
        if second.len() > 0 {
            lemma_entry_in_map(second, 0);
            assert(has_name(first, second[0].0));
        }
        assert(first =~= second);
    } else {
        let m = first.len() - 1;
        let n = second.len() - 1;
        let a = first[m];
        let b = second[n];
        lemma_entry_in_map(first, m);
        lemma_entry_in_map(second, n);
        assert(has_name(second, a.0) && has_name(first, b.0));
        let j = index_of(second, a.0);
        let i = index_of(first, b.0);
        if a.0 != b.0 {
            assert(name_before(second[j].0, second[n].0));
            assert(name_before(first[i].0, first[m].0));
            lemma_before_transitive(encode_utf8(a.0), encode_utf8(b.0), encode_utf8(a.0));
            lemma_before_irreflexive(encode_utf8(a.0));
        }
        assert(a == b);
        let shorter = first.drop_last();
        let other = second.drop_last();
        assert(ascending(shorter)) by {
            assert forall|x: int, y: int| 0 <= x < y < shorter.len() implies name_before(
                (#[trigger] shorter[x]).0,
                (#[trigger] shorter[y]).0,
            ) by {
                assert(shorter[x] == first[x] && shorter[y] == first[y]);
            }
        }
        assert(ascending(other)) by {
            assert forall|x: int, y: int| 0 <= x < y < other.len() implies name_before(
                (#[trigger] other[x]).0,
                (#[trigger] other[y]).0,
            ) by {
                assert(other[x] == second[x] && other[y] == second[y]);
            }
        }
        assert forall|x: int| 0 <= x < m implies name_before((#[trigger] shorter[x]).0, a.0) by {
            assert(shorter[x] == first[x]);
        }
        assert forall|x: int| 0 <= x < n implies name_before((#[trigger] other[x]).0, b.0) by {
            assert(other[x] == second[x]);
        }
        lemma_insert_entry(shorter, m, a.0, a.1);
        lemma_insert_entry(other, n, b.0, b.1);
        assert(shorter.insert(m, a) =~= first);
        assert(other.insert(n, b) =~= second);
        assert(entries_map(shorter) =~= entries_map(first).remove(a.0));
        assert(entries_map(other) =~= entries_map(second).remove(b.0));
        lemma_listing_unique(shorter, other);
        assert(first =~= second);
    }
}

/// How one name stands to another.
enum NameOrder {
    Before,
    Same,
    After,
}

/// Compares two names as strings are ordered: by the bytes of their UTF-8
/// encoding.
fn compare_names(a: &str, b: &str) -> (order: NameOrder)
    ensures
        order is Before ==> name_before(a@, b@),
        order is Same ==> a@ == b@,
        order is After ==> name_before(b@, a@),
{
    let x = a.as_bytes();
    let y = b.as_bytes();
    let mut i: usize = 0;
    proof {
        assert(x@ == encode_utf8(a@) && y@ == encode_utf8(b@));
        assert(x@.skip(0) =~= x@ && y@.skip(0) =~= y@);
        assert(x@.take(0) =~= y@.take(0));
    }
    while i < x.len() && i < y.len()
        invariant
            i <= x.len(),
            i <= y.len(),
            x@ == encode_utf8(a@),
            y@ == encode_utf8(b@),
            x@.take(i as int) == y@.take(i as int),
            bytes_before(x@, y@) == bytes_before(x@.skip(i as int), y@.skip(i as int)),
            bytes_before(y@, x@) == bytes_before(y@.skip(i as int), x@.skip(i as int)),
        decreases x.len() - i,
    {
        proof {
            assert(x@.skip(i as int)[0] == x@[i as int]);
            assert(y@.skip(i as int)[0] == y@[i as int]);
            assert(x@.skip(i as int).drop_first() =~= x@.skip(i + 1));
            assert(y@.skip(i as int).drop_first() =~= y@.skip(i + 1));
            assert(x@.take(i + 1) =~= x@.take(i as int).push(x@[i as int]));
            assert(y@.take(i + 1) =~= y@.take(i as int).push(y@[i as int]));
        }
        if x[i] < y[i] {
            return NameOrder::Before;
        }
        if x[i] > y[i] {
            return NameOrder::After;
        }
        i += 1;
    }
    if x.len() < y.len() {
        NameOrder::Before
    } else if x.len() > y.len() {
        NameOrder::After
    } else {
        proof {
            assert(x@.take(i as int) =~= x@);
            assert(y@.take(i as int) =~= y@);
            encode_utf8_valid_utf8(a@);
            encode_utf8_decode_utf8(a@);
            encode_utf8_decode_utf8(b@);
            assert(decode_utf8(encode_utf8(a@)) == decode_utf8(encode_utf8(b@)));
        }
        NameOrder::Same
    }
}

/// A map from file name to content, kept in ascending order of the names.
#[derive(Debug)]
pub struct FileMap {
    entries: Vec<(String, Vec<u8>)>,
}

impl View for FileMap {
    type V = Map<Seq<char>, Seq<u8>>;

    open spec fn view(&self) -> Map<Seq<char>, Seq<u8>> {
        entries_map(self.entries())
    }
}

impl Clone for FileMap {
    fn clone(&self) -> (copy: Self)
        ensures
            copy.entries() == self.entries(),
    {
        let mut entries: Vec<(String, Vec<u8>)> = Vec::new();
        let mut i: usize = 0;
        while i < self.entries.len()
            invariant
                i <= self.entries.len(),
                entries.len() == i,
                forall|j: int|
                    0 <= j < i ==> (#[trigger] entries[j]).0@ == self.entries[j].0@ && entries[j].1@
                        == self.entries[j].1@,
            decreases self.entries.len() - i,
        {
            entries.push((self.entries[i].0.clone(), self.entries[i].1.clone()));
            i += 1;
        }
        let copy = FileMap { entries };
        assert(copy.entries() =~= self.entries());
        copy
    }
}

impl FileMap {
    /// The files, one `(name, content)` pair each, in the order in which the
    /// map is walked.
    pub closed spec fn entries(&self) -> Seq<(Seq<char>, Seq<u8>)> {
        entries_view(self.entries@)
    }

    /// The files are listed in ascending order of their names.
    pub open spec fn wf(&self) -> bool {
        ascending(self.entries())
    }

    /// The contents of the files, in ascending order of their names.
    pub open spec fn contents(&self) -> Seq<Seq<u8>> {
        contents_of(self.entries())
    }

    /// The empty map.
    pub fn new() -> (files: Self)
        ensures
            files.wf(),
            files.entries() == Seq::<(Seq<char>, Seq<u8>)>::empty(),
            files@ == Map::<Seq<char>, Seq<u8>>::empty(),
    {
        let files = FileMap { entries: Vec::new() };
        assert(files.entries() =~= Seq::<(Seq<char>, Seq<u8>)>::empty());
        assert(files@ =~= Map::<Seq<char>, Seq<u8>>::empty());
        files
    }

    /// The number of files.
    pub fn len(&self) -> (count: usize)
        ensures
            count == self.entries().len(),
    {
        self.entries.len()
    }

    /// The file at place `index` in ascending order of the names.
    pub fn entry(&self, index: usize) -> (file: (&String, &Vec<u8>))
        requires
            index < self.entries().len(),
        ensures
            (file.0@, file.1@) == self.entries()[index as int],
    {
        (&self.entries[index].0, &self.entries[index].1)
    }

    /// Where `name` is or would be: the number of files whose names sort
    /// before it, and whether the file at that place bears the name.
    fn find_slot(&self, name: &str) -> (slot: (usize, bool))
        requires
            self.wf(),
        ensures
            slot.0 <= self.entries().len(),
            forall|i: int| 0 <= i < slot.0 ==> name_before((#[trigger] self.entries()[i]).0, name@),
            forall|i: int|
                slot.0 + (if slot.1 { 1int } else { 0int }) <= i < self.entries().len()
                    ==> name_before(name@, (#[trigger] self.entries()[i]).0),
            slot.1 ==> slot.0 < self.entries().len() && self.entries()[slot.0 as int].0 == name@,
            slot.1 == has_name(self.entries(), name@),
    {
        let mut k: usize = 0;
        let mut found = false;
        while k < self.entries.len()
            invariant_except_break
                !found,
            invariant
                self.wf(),
                k <= self.entries.len(),
                forall|i: int| 0 <= i < k ==> name_before((#[trigger] self.entries()[i]).0, name@),
            ensures
                k <= self.entries.len(),
                found ==> k < self.entries.len() && self.entries()[k as int].0 == name@,
                k < self.entries.len() && !found ==> name_before(name@, self.entries()[k as int].0),
            decreases self.entries.len() - k,
        {
            match compare_names(self.entries[k].0.as_str(), name) {
                NameOrder::Before => {
                    k += 1;
                },
                NameOrder::Same => {
                    found = true;
                    break ;
                },
                NameOrder::After => {
                    break ;
                },
            }
        }
        proof {
            let entries = self.entries();
            let first_after = k + (if found { 1int } else { 0int });
            assert forall|i: int| first_after <= i < entries.len() implies name_before(
                name@,
                (#[trigger] entries[i]).0,
            ) by {
                if i > k {
                    if !found {
                        lemma_before_transitive(
                            encode_utf8(name@),
                            encode_utf8(entries[k as int].0),
                            encode_utf8(entries[i].0),
                        );
                    }
                }
            }
            if has_name(entries, name@) && !found {
                let i = index_of(entries, name@);
                lemma_before_irreflexive(encode_utf8(name@));
            }
        }
        (k, found)
    }

    /// Sets the content of the file `name`, adding the file if the map has
    /// none of that name. Returns the content that was replaced, if any.
    pub fn insert(&mut self, name: String, content: Vec<u8>) -> (replaced: Option<Vec<u8>>)
        requires
            old(self).wf(),
        ensures
            final(self).wf(),
            final(self)@ == old(self)@.insert(name@, content@),
            match replaced {
                Some(previous) => old(self)@.contains_key(name@) && previous@ == old(self)@[name@]
                    && final(self).entries().len() == old(self).entries().len(),
                None => !old(self)@.contains_key(name@) && final(self).entries().len() == old(
                    self,
                ).entries().len() + 1,
            },
    {
        let (k, found) = self.find_slot(name.as_str());
        let ghost before = self.entries();
        if found {
            proof {
                lemma_replace_entry(before, k as int, content@);
                lemma_entry_in_map(before, k as int);
            }
            self.entries.push((name, content));
            let previous = self.entries.swap_remove(k);
            assert(self.entries() =~= before.update(k as int, (before[k as int].0, content@)));
            Some(previous.1)
        } else {
            proof {
                lemma_insert_entry(before, k as int, name@, content@);
            }
            self.entries.insert(k, (name, content));
            assert(self.entries() =~= before.insert(k as int, (name@, content@)));
            None
        }
    }

    /// The content of the file `name`, if the map has it.
    pub fn get(&self, name: &str) -> (content: Option<&Vec<u8>>)
        requires
            self.wf(),
        ensures
            match content {
                Some(found) => self@.contains_key(name@) && found@ == self@[name@],
                None => !self@.contains_key(name@),
            },
    {
        let (k, found) = self.find_slot(name);
        if found {
            proof {
                lemma_entry_in_map(self.entries(), k as int);
            }
            Some(&self.entries[k].1)
        } else {
            None
        }
    }

    /// The place of the file `name` among all files in ascending order of
    /// their names, if the map has it.
    pub fn position(&self, name: &str) -> (place: Option<usize>)
        requires
            self.wf(),
        ensures
            match place {
                Some(k) => self@.contains_key(name@) && k == index_of(self.entries(), name@) && k
                    < self.entries().len(),
                None => !self@.contains_key(name@),
            },
    {
        let (k, found) = self.find_slot(name);
        if found {
            proof {
                lemma_entry_in_map(self.entries(), k as int);
            }
            Some(k)
        } else {
            None
        }
    }

    /// The names of the files, ascending.
    pub fn keys(&self) -> (names: Vec<String>)
        ensures
            names.len() == self.entries().len(),
            forall|i: int| 0 <= i < names.len() ==> (#[trigger] names[i])@ == self.entries()[i].0,
    {
        let mut names: Vec<String> = Vec::new();
        let mut i: usize = 0;
        while i < self.entries.len()
            invariant
                i <= self.entries.len(),
                names.len() == i,
                forall|j: int| 0 <= j < i ==> (#[trigger] names[j])@ == self.entries()[j].0,
            decreases self.entries.len() - i,
        {
            names.push(self.entries[i].0.clone());
            i += 1;
        }
        names
    }

    /// The contents of the files, in ascending order of their names.
    pub fn values(&self) -> (contents: Vec<Vec<u8>>)
        ensures
            blobs_view(contents@) == self.contents(),
            contents.len() == self.entries().len(),
    {
        let mut contents: Vec<Vec<u8>> = Vec::new();
        let mut i: usize = 0;
        while i < self.entries.len()
            invariant
                i <= self.entries.len(),
                contents.len() == i,
                forall|j: int| 0 <= j < i ==> (#[trigger] contents[j])@ == self.entries()[j].1,
            decreases self.entries.len() - i,
        {
            contents.push(self.entries[i].1.clone());
            i += 1;
        }
        assert(blobs_view(contents@) =~= self.contents());
        contents
    }
}

} // verus!
