//! A table whose rows stand in the order of their names.

use crate::table;
use crate::table::Name;
use vstd::prelude::*;
use vstd::string::*;

verus! {

/// Dictionary order.
pub open spec fn lex(a: Seq<int>, b: Seq<int>) -> bool
    decreases b.len(),
{
    if b.len() == 0 {
        false
    } else if a.len() == 0 {
        true
    } else if a[0] != b[0] {
        a[0] < b[0]
    } else {
        lex(a.subrange(1, a.len() as int), b.subrange(1, b.len() as int))
    }
}

/// Nothing stands before itself.
proof fn lemma_lex_irreflexive(a: Seq<int>)
    ensures
        !lex(a, a),
    decreases a.len(),
{
    if a.len() > 0 {
        lemma_lex_irreflexive(a.subrange(1, a.len() as int));
    }
}

/// What stands before something stands before what comes after it.
proof fn lemma_lex_transitive(a: Seq<int>, b: Seq<int>, c: Seq<int>)
    requires
        lex(a, b),
        lex(b, c),
    ensures
        lex(a, c),
    decreases c.len(),
{
    if a.len() > 0 && b.len() > 0 && c.len() > 0 && a[0] == b[0] && b[0] == c[0] {
        lemma_lex_transitive(
            a.subrange(1, a.len() as int),
            b.subrange(1, b.len() as int),
            c.subrange(1, c.len() as int),
        );
    }
}

/// Of two different things one stands before the other.
proof fn lemma_lex_total(a: Seq<int>, b: Seq<int>)
    ensures
        lex(a, b) || lex(b, a) || a == b,
    decreases a.len(),
{
    if a.len() > 0 && b.len() > 0 && a[0] == b[0] {
        let at = a.subrange(1, a.len() as int);
        let bt = b.subrange(1, b.len() as int);
        lemma_lex_total(at, bt);
        if at == bt {
            assert(a =~= seq![a[0]] + at);
            assert(b =~= seq![b[0]] + bt);
        }
    } else if a.len() == 0 && b.len() == 0 {
        assert(a =~= b);
    }
}

/// Names in an order.
pub trait Ordered: Name {
    /// The name as a sequence of numbers, by which it is ordered.
    spec fn key(name: Self::N) -> Seq<int>;

    /// Different names are different sequences.
    proof fn key_is_injective(a: Self::N, b: Self::N)
        requires
            Self::key(a) == Self::key(b),
        ensures
            a == b,
    ;

    /// Whether a name stands before another.
    fn less(&self, other: &Self) -> (r: bool)
        ensures
            r == lex(Self::key(self.name()), Self::key(other.name())),
    ;
}

impl Ordered for [u8; 32] {
    open spec fn key(name: Seq<u8>) -> Seq<int> {
        name.map_values(|b: u8| b as int)
    }

    proof fn key_is_injective(a: Seq<u8>, b: Seq<u8>) {
        let f = |x: u8| x as int;
        assert(a.len() == a.map_values(f).len() && b.len() == b.map_values(f).len());
        assert forall|i: int| 0 <= i < a.len() implies a[i] == b[i] by {
            assert(a.map_values(f)[i] == b.map_values(f)[i]);
        }
        assert(a =~= b);
    }

    fn less(&self, other: &[u8; 32]) -> (r: bool) {
        let ghost a = Self::key(self@);
        let ghost b = Self::key(other@);
        let mut i: usize = 0;
        assert(a.subrange(0, 32) =~= a && b.subrange(0, 32) =~= b);
        while i < 32
            invariant
                i <= 32,
                a == Self::key(self@),
                b == Self::key(other@),
                a.len() == 32,
                b.len() == 32,
                lex(a, b) == lex(a.subrange(i as int, 32), b.subrange(i as int, 32)),
            decreases 32 - i,
        {
            let ghost at = a.subrange(i as int, 32);
            let ghost bt = b.subrange(i as int, 32);
            assert(at[0] == self@[i as int] && bt[0] == other@[i as int]);
            if self[i] != other[i] {
                return self[i] < other[i];
            }
            assert(at.subrange(1, at.len() as int) =~= a.subrange(i + 1, 32));
            assert(bt.subrange(1, bt.len() as int) =~= b.subrange(i + 1, 32));
            i = i + 1;
        }
        false
    }
}

impl Ordered for String {
    open spec fn key(name: Seq<char>) -> Seq<int> {
        name.map_values(|c: char| c as int)
    }

    proof fn key_is_injective(a: Seq<char>, b: Seq<char>) {
        let f = |x: char| x as int;
        assert(a.len() == a.map_values(f).len() && b.len() == b.map_values(f).len());
        assert forall|i: int| 0 <= i < a.len() implies a[i] == b[i] by {
            assert(a.map_values(f)[i] == b.map_values(f)[i]);
        }
        assert(a =~= b);
    }

    fn less(&self, other: &String) -> (r: bool) {
        let x = crate::text::chars_of(self.as_str());
        let y = crate::text::chars_of(other.as_str());
        let ghost a = Self::key(self@);
        let ghost b = Self::key(other@);
        let mut i: usize = 0;
        assert(a.subrange(0, a.len() as int) =~= a && b.subrange(0, b.len() as int) =~= b);
        while i < x.len() && i < y.len()
            invariant
                x@ == self@,
                y@ == other@,
                i <= x@.len(),
                i <= y@.len(),
                a == Self::key(self@),
                b == Self::key(other@),
                lex(a, b) == lex(
                    a.subrange(i as int, a.len() as int),
                    b.subrange(i as int, b.len() as int),
                ),
            decreases x@.len() - i,
        {
            let ghost at = a.subrange(i as int, a.len() as int);
            let ghost bt = b.subrange(i as int, b.len() as int);
            assert(at[0] == x@[i as int] as int && bt[0] == y@[i as int] as int);
            if x[i] != y[i] {
                return x[i] < y[i];
            }
            assert(at.subrange(1, at.len() as int) =~= a.subrange(i + 1, a.len() as int));
            assert(bt.subrange(1, bt.len() as int) =~= b.subrange(i + 1, b.len() as int));
            i = i + 1;
        }
        i < y.len()
    }
}

/// The rows stand in the order of their names, no name twice.
pub open spec fn in_order<K: Ordered, V>(rows: Seq<(K::N, V)>) -> bool {
    forall|i: int, j: int|
        0 <= i < j < rows.len() ==> lex(K::key(rows[i].0), K::key(rows[j].0))
}

/// Where a name stands, or would stand.
pub open spec fn rank<K: Ordered, V>(rows: Seq<(K::N, V)>, name: K::N) -> int
    decreases rows.len(),
{
    if rows.len() == 0 || lex(K::key(rows.last().0), K::key(name)) {
        rows.len() as int
    } else {
        rank::<K, V>(rows.drop_last(), name)
    }
}

/// What `rank` says.
proof fn lemma_rank<K: Ordered, V>(rows: Seq<(K::N, V)>, name: K::N)
    requires
        in_order::<K, V>(rows),
    ensures
        0 <= rank::<K, V>(rows, name) <= rows.len(),
        forall|i: int|
            0 <= i < rank::<K, V>(rows, name) ==> lex(K::key(rows[i].0), K::key(name)),
        forall|i: int|
            rank::<K, V>(rows, name) <= i < rows.len() ==> !lex(K::key(rows[i].0), K::key(name)),
    decreases rows.len(),
{
    if rows.len() > 0 {
        if lex(K::key(rows.last().0), K::key(name)) {
            assert forall|i: int| 0 <= i < rows.len() implies lex(
                K::key(rows[i].0),
                K::key(name),
            ) by {
                if i < rows.len() - 1 {
                    lemma_lex_transitive(
                        K::key(rows[i].0),
                        K::key(rows.last().0),
                        K::key(name),
                    );
                }
            }
        } else {
            let fewer = rows.drop_last();
            lemma_rank::<K, V>(fewer, name);
            assert forall|i: int| 0 <= i < rows.len() implies (i < rank::<K, V>(rows, name) <==> lex(
                K::key(rows[i].0),
                K::key(name),
            )) by {
                if i < fewer.len() {
                    assert(fewer[i] == rows[i]);
                }
            }
        }
    }
}

/// The rows with the value under the name, in order.
pub open spec fn put<K: Ordered, V>(rows: Seq<(K::N, V)>, name: K::N, value: V) -> Seq<(K::N, V)> {
    match table::index_of(rows, name) {
        Some(i) => rows.update(i, (name, value)),
        None => rows.insert(rank::<K, V>(rows, name), (name, value)),
    }
}

/// Rows in order have distinct names.
pub proof fn lemma_in_order_is_distinct<K: Ordered, V>(rows: Seq<(K::N, V)>)
    requires
        in_order::<K, V>(rows),
    ensures
        table::distinct(rows),
{
    assert forall|i: int, j: int| 0 <= i < j < rows.len() implies rows[i].0 != rows[j].0 by {
        if rows[i].0 == rows[j].0 {
            lemma_lex_irreflexive(K::key(rows[i].0));
        }
    }
}

/// Putting a row in keeps the order.
proof fn lemma_put_keeps_order<K: Ordered, V>(rows: Seq<(K::N, V)>, name: K::N, value: V)
    requires
        in_order::<K, V>(rows),
    ensures
        in_order::<K, V>(put::<K, V>(rows, name, value)),
{
    table::lemma_index_of(rows, name);
    let now = put::<K, V>(rows, name, value);
    match table::index_of(rows, name) {
        Some(i) => {
            assert forall|a: int, b: int| 0 <= a < b < now.len() implies lex(
                K::key(now[a].0),
                K::key(now[b].0),
            ) by {
                assert(now[a].0 == rows[a].0 && now[b].0 == rows[b].0);
            }
        },
        None => {
            lemma_rank::<K, V>(rows, name);
            let r = rank::<K, V>(rows, name);
            assert forall|a: int, b: int| 0 <= a < b < now.len() implies lex(
                K::key(now[a].0),
                K::key(now[b].0),
            ) by {
                if a == r {
                    let old_b = rows[b - 1].0;
                    assert(now[b] == rows[b - 1]);
                    lemma_lex_total(K::key(name), K::key(old_b));
                    if K::key(name) == K::key(old_b) {
                        K::key_is_injective(name, old_b);
                    }
                } else if b == r {
                    assert(now[a] == rows[a]);
                } else {
                    let a2 = if a < r {
                        a
                    } else {
                        a - 1
                    };
                    let b2 = if b < r {
                        b
                    } else {
                        b - 1
                    };
                    assert(now[a] == rows[a2] && now[b] == rows[b2]);
                }
            }
        },
    }
}

/// Putting a row in keeps the order, and changes what stands under that name only.
pub proof fn lemma_put<K: Ordered, V>(rows: Seq<(K::N, V)>, name: K::N, value: V)
    requires
        in_order::<K, V>(rows),
    ensures
        in_order::<K, V>(put::<K, V>(rows, name, value)),
        table::holds(put::<K, V>(rows, name, value), name),
        table::at(put::<K, V>(rows, name, value), name) == value,
        forall|other: K::N|
            other != name ==> #[trigger] table::holds(put::<K, V>(rows, name, value), other)
                == table::holds(rows, other),
        forall|other: K::N|
            other != name && table::holds(rows, other) ==> #[trigger] table::at(
                put::<K, V>(rows, name, value),
                other,
            ) == table::at(rows, other),
        put::<K, V>(rows, name, value).len() == rows.len() + if table::holds(rows, name) {
            0int
        } else {
            1int
        },
{
    table::lemma_index_of(rows, name);
    lemma_put_keeps_order::<K, V>(rows, name, value);
    lemma_rank::<K, V>(rows, name);
    let now = put::<K, V>(rows, name, value);
    lemma_in_order_is_distinct::<K, V>(rows);
    lemma_in_order_is_distinct::<K, V>(now);
    let fresh = table::index_of(rows, name) is None;
    let i = match table::index_of(rows, name) {
        Some(i) => i,
        None => rank::<K, V>(rows, name),
    };
    assert(now[i] == (name, value));
    table::lemma_index_is(now, name, i);
    assert forall|other: K::N| other != name implies #[trigger] table::holds(now, other)
        == table::holds(rows, other) && (table::holds(rows, other) ==> table::at(now, other)
        == table::at(rows, other)) by {
        table::lemma_index_of(rows, other);
        table::lemma_index_of(now, other);
        if let Some(j) = table::index_of(rows, other) {
            let k = if fresh && j >= i {
                j + 1
            } else {
                j
            };
            assert(now[k] == rows[j]);
            table::lemma_index_is(now, other, k);
        }
        if let Some(k) = table::index_of(now, other) {
            assert(k != i);
            let j = if fresh && k > i {
                k - 1
            } else {
                k
            };
            assert(now[k] == rows[j]);
        }
    }
    assert forall|other: K::N| other != name && table::holds(rows, other) implies #[trigger] table::at(
        now,
        other,
    ) == table::at(rows, other) by {
        assert(table::holds(now, other) == table::holds(rows, other));
    }
}

/// Dictionary order: what two sequences have in common at the start says nothing;
/// where they first differ the lesser number comes first, and a sequence stands
/// before every longer one that begins with it.
pub proof fn lemma_dictionary_order(a: Seq<int>, b: Seq<int>, k: int)
    requires
        0 <= k <= a.len(),
        k <= b.len(),
        forall|i: int| 0 <= i < k ==> a[i] == b[i],
        k < a.len() && k < b.len() ==> a[k] != b[k],
    ensures
        k < a.len() && k < b.len() ==> (lex(a, b) <==> a[k] < b[k]),
        k == a.len() ==> (lex(a, b) <==> a.len() < b.len()),
        k < a.len() && k == b.len() ==> !lex(a, b),
    decreases k,
{
    if k > 0 {
        let at = a.subrange(1, a.len() as int);
        let bt = b.subrange(1, b.len() as int);
        assert(a[0] == b[0]);
        assert forall|i: int| 0 <= i < k - 1 implies at[i] == bt[i] by {
            assert(at[i] == a[i + 1] && bt[i] == b[i + 1]);
        }
        lemma_dictionary_order(at, bt, k - 1);
    }
}

/// Taking a row out keeps the order.
proof fn lemma_remove_keeps_order<K: Ordered, V>(rows: Seq<(K::N, V)>, i: int)
    requires
        in_order::<K, V>(rows),
        0 <= i < rows.len(),
    ensures
        in_order::<K, V>(rows.remove(i)),
{
    let now = rows.remove(i);
    assert forall|a: int, b: int| 0 <= a < b < now.len() implies lex(
        K::key(now[a].0),
        K::key(now[b].0),
    ) by {
        let a2 = if a < i {
            a
        } else {
            a + 1
        };
        let b2 = if b < i {
            b
        } else {
            b + 1
        };
        assert(now[a] == rows[a2] && now[b] == rows[b2]);
    }
}

/// Taking the row of a name out keeps the order.
pub proof fn lemma_without_keeps_order<K: Ordered, V>(rows: Seq<(K::N, V)>, name: K::N)
    requires
        in_order::<K, V>(rows),
    ensures
        in_order::<K, V>(table::without(rows, name)),
{
    table::lemma_index_of(rows, name);
    if let Some(i) = table::index_of(rows, name) {
        lemma_remove_keeps_order::<K, V>(rows, i);
    }
}

/// Rows in the order of their names.
pub struct SortedTable<K: Ordered, V> {
    entries: Vec<(K, V)>,
}

impl<K: Ordered, V> SortedTable<K, V> {
    /// The rows, in the order of their names.
    pub closed spec fn rows(&self) -> Seq<(K::N, V)> {
        self.entries@.map_values(|e: (K, V)| (e.0.name(), e.1))
    }

    /// The rows stand in the order of their names, no name twice.
    pub open spec fn wf(&self) -> bool {
        in_order::<K, V>(self.rows())
    }

    /// A table without rows.
    pub fn new() -> (t: Self)
        ensures
            t.rows() == Seq::<(K::N, V)>::empty(),
            t.wf(),
    {
        let t = SortedTable { entries: Vec::new() };
        assert(t.rows() =~= Seq::<(K::N, V)>::empty());
        t
    }

    /// How many rows there are.
    pub fn len(&self) -> (n: usize)
        ensures
            n == self.rows().len(),
    {
        self.entries.len()
    }

    /// The name of a row.
    pub fn name_at(&self, i: usize) -> (k: &K)
        requires
            i < self.rows().len(),
        ensures
            k.name() == self.rows()[i as int].0,
    {
        &self.entries[i].0
    }

    /// The value in a row.
    pub fn value_at(&self, i: usize) -> (v: &V)
        requires
            i < self.rows().len(),
        ensures
            *v == self.rows()[i as int].1,
    {
        &self.entries[i].1
    }

    /// Where the row of a name stands.
    pub fn find(&self, name: &K) -> (r: Option<usize>)
        requires
            self.wf(),
        ensures
            r matches Some(i) ==> table::index_of(self.rows(), name.name()) == Some(i as int) && i
                < self.rows().len(),
            r is None ==> table::index_of(self.rows(), name.name()) is None,
    {
        let mut i: usize = 0;
        while i < self.entries.len()
            invariant
                self.wf(),
                i <= self.entries@.len(),
                forall|k: int| 0 <= k < i ==> self.rows()[k].0 != name.name(),
            decreases self.entries@.len() - i,
        {
            assert(self.rows()[i as int] == (
                self.entries@[i as int].0.name(),
                self.entries@[i as int].1,
            ));
            if self.entries[i].0.same(name) {
                proof {
                    lemma_in_order_is_distinct::<K, V>(self.rows());
                    table::lemma_index_is(self.rows(), name.name(), i as int);
                }
                return Some(i);
            }
            i = i + 1;
        }
        proof {
            table::lemma_index_of(self.rows(), name.name());
        }
        None
    }

    /// The value under a name.
    pub fn get(&self, name: &K) -> (r: Option<&V>)
        requires
            self.wf(),
        ensures
            r is Some == table::holds(self.rows(), name.name()),
            r matches Some(v) ==> *v == table::at(self.rows(), name.name()),
    {
        match self.find(name) {
            Some(i) => Some(self.value_at(i)),
            None => None,
        }
    }

    /// Whether there is a row of the name.
    pub fn contains(&self, name: &K) -> (r: bool)
        requires
            self.wf(),
        ensures
            r == table::holds(self.rows(), name.name()),
    {
        self.find(name).is_some()
    }

    /// Puts a value under a name.
    pub fn insert(&mut self, name: K, value: V)
        requires
            old(self).wf(),
        ensures
            final(self).wf(),
            final(self).rows() == put::<K, V>(old(self).rows(), name.name(), value),
    {
        let ghost before = self.rows();
        let ghost n = name.name();
        proof {
            lemma_put_keeps_order::<K, V>(before, n, value);
            lemma_rank::<K, V>(before, n);
        }
        match self.find(&name) {
            Some(i) => {
                let mut entry = (name, value);
                core::mem::swap(&mut entry, &mut self.entries[i]);
                assert(self.rows() =~= before.update(i as int, (n, value)));
            },
            None => {
                let mut at: usize = self.entries.len();
                assert(before.subrange(0, before.len() as int) =~= before);
                while at > 0 && !self.entries[at - 1].0.less(&name)
                    invariant
                        self.rows() == before,
                        n == name.name(),
                        at <= self.entries@.len(),
                        rank::<K, V>(before, n) == rank::<K, V>(
                            before.subrange(0, at as int),
                            n,
                        ),
                    decreases at,
                {
                    let ghost upto = before.subrange(0, at as int);
                    assert(upto.last() == before[at - 1]);
                    assert(upto.drop_last() =~= before.subrange(0, at - 1));
                    at = at - 1;
                }
                proof {
                    let upto = before.subrange(0, at as int);
                    if at > 0 {
                        assert(upto.last() == before[at - 1]);
                    }
                    assert(rank::<K, V>(before, n) == at);
                }
                self.entries.insert(at, (name, value));
                assert(self.rows() =~= before.insert(at as int, (n, value)));
            },
        }
    }

    /// Takes the row of a name out, and gives back what stood there.
    pub fn remove(&mut self, name: &K) -> (r: Option<V>)
        requires
            old(self).wf(),
        ensures
            final(self).wf(),
            final(self).rows() == table::without(old(self).rows(), name.name()),
            r is Some == table::holds(old(self).rows(), name.name()),
            r matches Some(v) ==> v == table::at(old(self).rows(), name.name()),
    {
        let ghost before = self.rows();
        match self.find(name) {
            Some(i) => {
                let row = self.entries.remove(i);
                proof {
                    lemma_remove_keeps_order::<K, V>(before, i as int);
                    assert(self.rows() =~= before.remove(i as int));
                }
                Some(row.1)
            },
            None => None,
        }
    }

    /// Takes all rows out.
    pub fn clear(&mut self)
        ensures
            final(self).wf(),
            final(self).rows() == Seq::<(K::N, V)>::empty(),
    {
        self.entries.clear();
        assert(self.rows() =~= Seq::<(K::N, V)>::empty());
    }
}

} // verus!
