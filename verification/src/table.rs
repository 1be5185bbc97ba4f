//! A small table: rows under names, no name twice, in the order they came.

use vstd::prelude::*;
use vstd::string::*;

verus! {

/// What a row of a table is found by.
pub trait Name: Sized {
    /// The name as the contracts see it.
    type N;

    /// The name as the contracts see it.
    spec fn name(&self) -> Self::N;

    /// Whether two names are the same.
    fn same(&self, other: &Self) -> (r: bool)
        ensures
            r == (self.name() == other.name()),
    ;
}

impl Name for String {
    type N = Seq<char>;

    open spec fn name(&self) -> Seq<char> {
        self@
    }

    fn same(&self, other: &String) -> (r: bool) {
        *self == *other
    }
}

impl Name for [u8; 32] {
    type N = Seq<u8>;

    open spec fn name(&self) -> Seq<u8> {
        self@
    }

    fn same(&self, other: &[u8; 32]) -> (r: bool) {
        let mut i: usize = 0;
        while i < 32
            invariant
                i <= 32,
                forall|k: int| 0 <= k < i ==> self@[k] == other@[k],
            decreases 32 - i,
        {
            if self[i] != other[i] {
                return false;
            }
            i = i + 1;
        }
        assert(self@ =~= other@);
        true
    }
}

/// Where the row of a name stands, if there is one.
pub open spec fn index_of<N, V>(rows: Seq<(N, V)>, name: N) -> Option<int>
    decreases rows.len(),
{
    if rows.len() == 0 {
        None
    } else if rows.last().0 == name {
        Some(rows.len() - 1)
    } else {
        index_of(rows.drop_last(), name)
    }
}

/// Whether there is a row of the name.
pub open spec fn holds<N, V>(rows: Seq<(N, V)>, name: N) -> bool {
    index_of(rows, name) is Some
}

/// The value in the row of the name.
pub open spec fn at<N, V>(rows: Seq<(N, V)>, name: N) -> V {
    rows[index_of(rows, name)->0].1
}

/// The rows with the value under the name: in the row of the name, or in a new
/// one at the end.
pub open spec fn put<N, V>(rows: Seq<(N, V)>, name: N, value: V) -> Seq<(N, V)> {
    match index_of(rows, name) {
        Some(i) => rows.update(i, (name, value)),
        None => rows.push((name, value)),
    }
}

/// The rows without the row of the name.
pub open spec fn without<N, V>(rows: Seq<(N, V)>, name: N) -> Seq<(N, V)> {
    match index_of(rows, name) {
        Some(i) => rows.remove(i),
        None => rows,
    }
}

/// No name stands in two rows.
pub open spec fn distinct<N, V>(rows: Seq<(N, V)>) -> bool {
    forall|i: int, j: int| 0 <= i < j < rows.len() ==> rows[i].0 != rows[j].0
}

/// What `index_of` says.
pub proof fn lemma_index_of<N, V>(rows: Seq<(N, V)>, name: N)
    ensures
        index_of(rows, name) matches Some(i) ==> 0 <= i < rows.len() && rows[i].0 == name,
        index_of(rows, name) is None ==> forall|i: int| 0 <= i < rows.len() ==> rows[i].0 != name,
    decreases rows.len(),
{
    if rows.len() > 0 && rows.last().0 != name {
        lemma_index_of(rows.drop_last(), name);
        assert forall|i: int| 0 <= i < rows.len() && index_of(rows, name) is None implies rows[i].0
            != name by {
            if i < rows.len() - 1 {
                assert(rows[i] == rows.drop_last()[i]);
            }
        }
    }
}

/// Where names are distinct, a row of the name is the row of the name.
pub proof fn lemma_index_is<N, V>(rows: Seq<(N, V)>, name: N, i: int)
    requires
        distinct(rows),
        0 <= i < rows.len(),
        rows[i].0 == name,
    ensures
        index_of(rows, name) == Some(i),
{
    lemma_index_of(rows, name);
    let j = index_of(rows, name)->0;
    if i < j {
        assert(rows[i].0 != rows[j].0);
    } else if j < i {
        assert(rows[j].0 != rows[i].0);
    }
}

/// Putting a row in keeps names distinct, and changes what stands under that
/// name only.
pub proof fn lemma_put<N, V>(rows: Seq<(N, V)>, name: N, value: V)
    requires
        distinct(rows),
    ensures
        distinct(put(rows, name, value)),
        holds(put(rows, name, value), name),
        at(put(rows, name, value), name) == value,
        forall|other: N|
            other != name ==> holds(put(rows, name, value), other) == holds(rows, other),
        forall|other: N|
            other != name && holds(rows, other) ==> at(put(rows, name, value), other) == at(
                rows,
                other,
            ),
{
    lemma_index_of(rows, name);
    let now = put(rows, name, value);
    assert(distinct(now));
    let i = match index_of(rows, name) {
        Some(i) => i,
        None => rows.len() as int,
    };
    assert(now[i] == (name, value));
    lemma_index_is(now, name, i);
    assert forall|other: N| other != name implies holds(now, other) == holds(rows, other) && (holds(
        rows,
        other,
    ) ==> at(now, other) == at(rows, other)) by {
        lemma_index_of(rows, other);
        lemma_index_of(now, other);
        if let Some(j) = index_of(rows, other) {
            assert(now[j] == rows[j]);
            lemma_index_is(now, other, j);
        }
        if let Some(j) = index_of(now, other) {
            assert(j != i);
            assert(now[j] == rows[j]);
        }
    }
}

/// Taking a row out keeps names distinct, and changes what stands under that
/// name only.
pub proof fn lemma_without<N, V>(rows: Seq<(N, V)>, name: N)
    requires
        distinct(rows),
    ensures
        distinct(without(rows, name)),
        !holds(without(rows, name), name),
        forall|other: N|
            other != name ==> holds(without(rows, name), other) == holds(rows, other),
        forall|other: N|
            other != name && holds(rows, other) ==> at(without(rows, name), other) == at(rows, other),
{
    lemma_index_of(rows, name);
    let now = without(rows, name);
    if let Some(i) = index_of(rows, name) {
        assert forall|j: int, k: int| 0 <= j < k < now.len() implies now[j].0 != now[k].0 by {
            let j2 = if j < i {
                j
            } else {
                j + 1
            };
            let k2 = if k < i {
                k
            } else {
                k + 1
            };
            assert(now[j] == rows[j2] && now[k] == rows[k2]);
        }
        lemma_index_of(now, name);
        if let Some(j) = index_of(now, name) {
            let j2 = if j < i {
                j
            } else {
                j + 1
            };
            assert(now[j] == rows[j2]);
            if j2 < i {
                assert(rows[j2].0 != rows[i].0);
            } else {
                assert(rows[i].0 != rows[j2].0);
            }
        }
        assert forall|other: N| other != name implies holds(now, other) == holds(rows, other) && (holds(
            rows,
            other,
        ) ==> at(now, other) == at(rows, other)) by {
            lemma_index_of(rows, other);
            lemma_index_of(now, other);
            if let Some(j) = index_of(rows, other) {
                let k = if j < i {
                    j
                } else {
                    j - 1
                };
                assert(now[k] == rows[j]);
                lemma_index_is(now, other, k);
            }
            if let Some(j) = index_of(now, other) {
                let j2 = if j < i {
                    j
                } else {
                    j + 1
                };
                assert(now[j] == rows[j2]);
            }
        }
    }
}

/// Rows under names.
pub struct Table<K: Name, V> {
    entries: Vec<(K, V)>,
}

impl<K: Name, V> Table<K, V> {
    /// The rows, in the order they came.
    pub closed spec fn rows(&self) -> Seq<(K::N, V)> {
        self.entries@.map_values(|e: (K, V)| (e.0.name(), e.1))
    }

    /// No name stands in two rows.
    pub open spec fn wf(&self) -> bool {
        distinct(self.rows())
    }

    /// A table without rows.
    pub fn new() -> (t: Self)
        ensures
            t.rows() == Seq::<(K::N, V)>::empty(),
            t.wf(),
    {
        let t = Table { entries: Vec::new() };
        assert(t.rows() =~= Seq::<(K::N, V)>::empty());
        t
    }

    /// How many rows there are.
    pub fn len(&self) -> (n: usize)
        ensures
            n == self.rows().len(),
    {
        self.entries.len()
    }

    /// The name of a row.
    pub fn name_at(&self, i: usize) -> (k: &K)
        requires
            i < self.rows().len(),
        ensures
            k.name() == self.rows()[i as int].0,
    {
        &self.entries[i].0
    }

    /// The value in a row.
    pub fn value_at(&self, i: usize) -> (v: &V)
        requires
            i < self.rows().len(),
        ensures
            *v == self.rows()[i as int].1,
    {
        &self.entries[i].1
    }

    /// Where the row of a name stands.
    pub fn find(&self, name: &K) -> (r: Option<usize>)
        requires
            self.wf(),
        ensures
            r matches Some(i) ==> index_of(self.rows(), name.name()) == Some(i as int) && i
                < self.rows().len(),
            r is None ==> index_of(self.rows(), name.name()) is None,
    {
        let mut i: usize = 0;
        while i < self.entries.len()
            invariant
                self.wf(),
                i <= self.entries@.len(),
                forall|k: int| 0 <= k < i ==> self.rows()[k].0 != name.name(),
            decreases self.entries@.len() - i,
        {
            assert(self.rows()[i as int] == (
                self.entries@[i as int].0.name(),
                self.entries@[i as int].1,
            ));
            if self.entries[i].0.same(name) {
                proof {
                    lemma_index_is(self.rows(), name.name(), i as int);
                }
                return Some(i);
            }
            i = i + 1;
        }
        proof {
            lemma_index_of(self.rows(), name.name());
        }
        None
    }

    /// The value under a name.
    pub fn get(&self, name: &K) -> (r: Option<&V>)
        requires
            self.wf(),
        ensures
            r is Some == holds(self.rows(), name.name()),
            r matches Some(v) ==> *v == at(self.rows(), name.name()),
    {
        match self.find(name) {
            Some(i) => Some(self.value_at(i)),
            None => None,
        }
    }

    /// Whether there is a row of the name.
    pub fn contains(&self, name: &K) -> (r: bool)
        requires
            self.wf(),
        ensures
            r == holds(self.rows(), name.name()),
    {
        self.find(name).is_some()
    }

    /// Puts a value under a name, and gives back what stood there.
    pub fn insert(&mut self, name: K, value: V) -> (r: Option<V>)
        requires
            old(self).wf(),
        ensures
            final(self).wf(),
            final(self).rows() == put(old(self).rows(), name.name(), value),
            r is Some == holds(old(self).rows(), name.name()),
            r matches Some(v) ==> v == at(old(self).rows(), name.name()),
    {
        let ghost before = self.rows();
        let ghost n = name.name();
        proof {
            lemma_put(before, n, value);
        }
        match self.find(&name) {
            Some(i) => {
                let mut entry = (name, value);
                core::mem::swap(&mut entry, &mut self.entries[i]);
                assert(self.rows() =~= before.update(i as int, (n, value)));
                Some(entry.1)
            },
            None => {
                self.entries.push((name, value));
                assert(self.rows() =~= before.push((n, value)));
                None
            },
        }
    }

    /// Takes the row at a place out.
    pub fn remove_at(&mut self, i: usize) -> (row: (K, V))
        requires
            old(self).wf(),
            i < old(self).rows().len(),
        ensures
            final(self).wf(),
            final(self).rows() == old(self).rows().remove(i as int),
            row.0.name() == old(self).rows()[i as int].0,
            row.1 == old(self).rows()[i as int].1,
    {
        let ghost before = self.rows();
        proof {
            lemma_index_is(before, before[i as int].0, i as int);
            lemma_without(before, before[i as int].0);
        }
        let row = self.entries.remove(i);
        assert(self.rows() =~= before.remove(i as int));
        row
    }

    /// Takes the row of a name out, and gives back what stood there.
    pub fn remove(&mut self, name: &K) -> (r: Option<V>)
        requires
            old(self).wf(),
        ensures
            final(self).wf(),
            final(self).rows() == without(old(self).rows(), name.name()),
            r is Some == holds(old(self).rows(), name.name()),
            r matches Some(v) ==> v == at(old(self).rows(), name.name()),
    {
        match self.find(name) {
            Some(i) => {
                let row = self.remove_at(i);
                Some(row.1)
            },
            None => None,
        }
    }

    /// Takes all rows out.
    pub fn clear(&mut self)
        ensures
            final(self).wf(),
            final(self).rows() == Seq::<(K::N, V)>::empty(),
    {
        self.entries.clear();
        assert(self.rows() =~= Seq::<(K::N, V)>::empty());
    }
}

} // verus!
