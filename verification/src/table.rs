//! A table: values that are found by their names, and kept in the order of
//! the names.

use vstd::prelude::*;

use crate::text;

verus! {

/// Values by their names.
pub struct Table<T> {
    rows: Vec<(String, T)>,
}

/// The names of the rows.
pub open spec fn row_names<T>(rows: Seq<(String, T)>) -> Seq<Seq<char>> {
    Seq::new(rows.len(), |i: int| rows[i].0@)
}

/// The values of the rows by their names.
pub open spec fn row_map<T>(rows: Seq<(String, T)>) -> Map<Seq<char>, T>
    decreases rows.len(),
{
    if rows.len() == 0 {
        Map::empty()
    } else {
        row_map(rows.drop_last()).insert(rows.last().0@, rows.last().1)
    }
}

/// Whether the row at `i` is a row of the table.
pub open spec fn stands<T>(table: Map<Seq<char>, T>, rows: Seq<(String, T)>, i: int) -> bool {
    table.dom().contains(rows[i].0@) && table[rows[i].0@] == rows[i].1
}

proof fn lemma_row<T>(rows: Seq<(String, T)>, i: int)
    requires
        0 <= i < rows.len(),
        text::ascending(row_names(rows)),
    ensures
        stands(row_map(rows), rows, i),
    decreases rows.len(),
{
    let less = rows.drop_last();
    assert forall|a: int, b: int| 0 <= a < b < less.len() implies text::before(
        #[trigger] row_names(less)[a],
        #[trigger] row_names(less)[b],
    ) by {
        assert(row_names(less)[a] == row_names(rows)[a]);
        assert(row_names(less)[b] == row_names(rows)[b]);
    }
    if i < rows.len() - 1 {
        lemma_row(less, i);
        assert(text::before(row_names(rows)[i], row_names(rows)[rows.len() - 1]));
        text::lemma_before_irreflexive(rows[i].0@);
    }
}

proof fn lemma_row_from<T>(rows: Seq<(String, T)>, name: Seq<char>)
    ensures
        row_map(rows).dom().contains(name) <==> row_names(rows).contains(name),
        row_map(rows).dom().finite(),
    decreases rows.len(),
{
    if rows.len() > 0 {
        let less = rows.drop_last();
        lemma_row_from(less, name);
        if row_names(less).contains(name) {
            let i = choose|i: int| 0 <= i < less.len() && row_names(less)[i] == name;
            assert(row_names(rows)[i] == name);
        }
        if rows.last().0@ == name {
            assert(row_names(rows)[rows.len() - 1] == name);
        }
        if row_names(rows).contains(name) && rows.last().0@ != name {
            let i = choose|i: int| 0 <= i < rows.len() && row_names(rows)[i] == name;
            assert(row_names(less)[i] == name);
        }
    }
}

proof fn lemma_row_names<T>(rows: Seq<(String, T)>)
    requires
        text::ascending(row_names(rows)),
    ensures
        row_names(rows) == text::listing(row_map(rows).dom()),
        row_names(rows).to_set() == row_map(rows).dom(),
{
    assert forall|name: Seq<char>| row_names(rows).to_set().contains(name) == row_map(
        rows,
    ).dom().contains(name) by {
        lemma_row_from(rows, name);
    }
    assert(row_names(rows).to_set() =~= row_map(rows).dom());
    text::lemma_listing(row_names(rows));
}

impl<T> View for Table<T> {
    type V = Map<Seq<char>, T>;

    closed spec fn view(&self) -> Map<Seq<char>, T> {
        row_map(self.rows@)
    }
}

impl<T> Table<T> {
    #[verifier::type_invariant]
    spec fn in_order(self) -> bool {
        text::ascending(row_names(self.rows@))
    }

    /// A table without rows.
    pub fn new() -> (r: Self)
        ensures
            r@ == Map::<Seq<char>, T>::empty(),
    {
        Table { rows: Vec::new() }
    }

    /// The rows, in the order of their names.
    pub fn rows(&self) -> (r: &Vec<(String, T)>)
        ensures
            row_names(r@) == text::listing(self@.dom()),
            row_names(r@).to_set() == self@.dom(),
            text::ascending(row_names(r@)),
            forall|i: int| 0 <= i < r@.len() ==> #[trigger] stands(self@, r@, i),
            row_map(r@) == self@,
    {
        proof {
            use_type_invariant(self);
            lemma_row_names(self.rows@);
            assert forall|i: int| 0 <= i < self.rows@.len() implies #[trigger] stands(
                self@,
                self.rows@,
                i,
            ) by {
                lemma_row(self.rows@, i);
            }
        }
        &self.rows
    }

    /// The value of a row, when there is one.
    pub fn get(&self, name: &str) -> (r: Option<&T>)
        ensures
            match r {
                Some(v) => self@.dom().contains(name@) && self@[name@] == *v,
                None => !self@.dom().contains(name@),
            },
    {
        proof {
            use_type_invariant(self);
        }
        let mut i: usize = 0;
        while i < self.rows.len()
            invariant
                i <= self.rows@.len(),
                text::ascending(row_names(self.rows@)),
                forall|j: int| 0 <= j < i ==> row_names(self.rows@)[j] != name@,
            decreases self.rows@.len() - i,
        {
            assert(row_names(self.rows@)[i as int] == self.rows@[i as int].0@);
            if text::equal(self.rows[i].0.as_str(), name) {
                proof {
                    lemma_row(self.rows@, i as int);
                }
                return Some(&self.rows[i].1);
            }
            i += 1;
        }
        proof {
            lemma_row_from(self.rows@, name@);
        }
        None
    }

    /// Set a row.
    pub fn set(&mut self, name: String, value: T)
        ensures
            final(self)@ == old(self)@.insert(name@, value),
    {
        proof {
            use_type_invariant(&*self);
        }
        let mut rows: Vec<(String, T)> = Vec::new();
        std::mem::swap(&mut rows, &mut self.rows);
        insert_row(&mut rows, name, value);
        self.rows = rows;
    }
}

fn insert_row<T>(rows: &mut Vec<(String, T)>, name: String, value: T)
    requires
        text::ascending(row_names(old(rows)@)),
    ensures
        text::ascending(row_names(final(rows)@)),
        row_map(final(rows)@) == row_map(old(rows)@).insert(name@, value),
{
    let ghost was = rows@;
    let ghost names = row_names(rows@);
    let mut i: usize = 0;
    while i < rows.len() && text::less(rows[i].0.as_str(), name.as_str())
        invariant
            i <= rows@.len(),
            rows@ == was,
            names == row_names(was),
            forall|j: int| 0 <= j < i ==> text::before(#[trigger] names[j], name@),
        decreases rows@.len() - i,
    {
        assert(names[i as int] == rows@[i as int].0@);
        i += 1;
    }
    let mut there = false;
    if i < rows.len() {
        assert(names[i as int] == rows@[i as int].0@);
        if text::equal(rows[i].0.as_str(), name.as_str()) {
            there = true;
            rows.remove(i);
        } else {
            proof {
                text::lemma_before_total(names[i as int], name@);
            }
        }
    }
    let ghost mid = rows@;
    let ghost shift: int = if there { 1 } else { 0 };
    rows.insert(i, (name, value));
    proof {
        let now = rows@;
        assert(mid =~= if there {
            was.remove(i as int)
        } else {
            was
        });
        assert forall|k: int| 0 <= k < i implies #[trigger] now[k] == was[k] by {}
        assert forall|k: int| i < k < now.len() implies #[trigger] now[k] == was[k - 1 + shift] by {}
        assert forall|j: int| i + shift <= j < was.len() implies text::before(
            name@,
            #[trigger] names[j],
        ) by {
            if there {
                assert(text::before(names[i as int], names[j]));
            } else if j > i {
                assert(text::before(names[i as int], names[j]));
                text::lemma_before_transitive(name@, names[i as int], names[j]);
            }
        }
        assert forall|a: int, b: int| 0 <= a < b < now.len() implies text::before(
            #[trigger] row_names(now)[a],
            #[trigger] row_names(now)[b],
        ) by {
            if a < i && b < i {
                assert(text::before(names[a], names[b]));
            } else if a < i && b == i {
                assert(text::before(names[a], name@));
            } else if a < i {
                assert(text::before(names[a], names[b - 1 + shift]));
            } else if a == i {
                assert(text::before(name@, names[b - 1 + shift]));
            } else {
                assert(text::before(names[a - 1 + shift], names[b - 1 + shift]));
            }
        }
        let want = row_map(was).insert(name@, value);
        assert forall|k: Seq<char>| row_map(now).dom().contains(k) == want.dom().contains(k) by {
            lemma_row_from(now, k);
            lemma_row_from(was, k);
            if k == name@ {
                assert(row_names(now)[i as int] == k);
            } else {
                if names.contains(k) {
                    let j = choose|j: int| 0 <= j < was.len() && names[j] == k;
                    if j < i {
                        assert(row_names(now)[j] == k);
                    } else {
                        assert(row_names(now)[j + 1 - shift] == k);
                    }
                }
                if row_names(now).contains(k) {
                    let j = choose|j: int| 0 <= j < now.len() && row_names(now)[j] == k;
                    if j < i {
                        assert(names[j] == k);
                    } else {
                        assert(names[j - 1 + shift] == k);
                    }
                }
            }
        }
        assert forall|k: Seq<char>| #[trigger] row_map(now).dom().contains(k) implies row_map(now)[k]
            == want[k] by {
            lemma_row_from(now, k);
            let j = choose|j: int| 0 <= j < now.len() && row_names(now)[j] == k;
            lemma_row(now, j);
            if k != name@ {
                if j < i {
                    lemma_row(was, j);
                } else {
                    lemma_row(was, j - 1 + shift);
                }
            } else if j != i {
                text::lemma_before_irreflexive(k);
                if j < i {
                    assert(text::before(row_names(now)[j], row_names(now)[i as int]));
                } else {
                    assert(text::before(row_names(now)[i as int], row_names(now)[j]));
                }
            }
        }
        assert(row_map(now) =~= want);
    }
}

} // verus!
