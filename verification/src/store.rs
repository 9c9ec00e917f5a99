//! The shared catalog: a mapping from id to record with an
//! allocate-by-maximum id rule.

use vstd::prelude::*;

use crate::book::{Book, BookFields, BookFieldsView, BookView};

verus! {

/// True when `s` holds an item whose id is `id`.
pub open spec fn has_id(s: Seq<BookView>, id: int) -> bool {
    exists|i: int| 0 <= i < s.len() && s[i].id == id
}

/// The index of the item whose id is `id` (unique under `distinct_ids`).
pub open spec fn index_of_id(s: Seq<BookView>, id: int) -> int {
    choose|i: int| 0 <= i < s.len() && s[i].id == id
}

/// All live items carry pairwise-distinct ids.
pub open spec fn distinct_ids(s: Seq<BookView>) -> bool {
    forall|i: int, j: int| 0 <= i < j < s.len() ==> s[i].id != s[j].id
}

/// The largest id among the live items, `0` for an empty catalog.
pub open spec fn max_id(s: Seq<BookView>) -> int
    decreases s.len(),
{
    if s.len() == 0 {
        0
    } else {
        let rest = max_id(s.drop_last());
        if s.last().id > rest {
            s.last().id
        } else {
            rest
        }
    }
}

/// The id the store hands to the next inserted item: one past the current
/// maximum, hence `1` on an empty catalog.
pub open spec fn next_id(s: Seq<BookView>) -> int {
    max_id(s) + 1
}

/// `max_id` is an upper bound on every live id.
pub proof fn lemma_max_id_ge(s: Seq<BookView>, i: int)
    requires
        0 <= i < s.len(),
    ensures
        s[i].id <= max_id(s),
    decreases s.len(),
{
    if i == s.len() - 1 {
    } else {
        lemma_max_id_ge(s.drop_last(), i);
    }
}

/// On a non-empty catalog of machine-representable ids, `max_id` is itself
/// a live id: together with `lemma_max_id_ge` this pins it as the maximum
/// of the live ids.
pub proof fn lemma_max_id_in(s: Seq<BookView>)
    requires
        s.len() > 0,
        forall|i: int| 0 <= i < s.len() ==> s[i].id >= 0,
    ensures
        has_id(s, max_id(s)),
    decreases s.len(),
{
    if s.last().id == max_id(s) {
        assert(s[s.len() - 1].id == max_id(s));
    } else {
        assert(s.len() > 1) by {
            if s.len() == 1 {
                assert(s.drop_last().len() == 0);
                assert(max_id(s.drop_last()) == 0);
                assert(s[0].id >= 0);
            }
        }
        lemma_max_id_ge(s, s.len() - 1);
        assert(forall|i: int| 0 <= i < s.drop_last().len() ==> s.drop_last()[i].id >= 0);
        lemma_max_id_in(s.drop_last());
        let i = index_of_id(s.drop_last(), max_id(s.drop_last()));
        assert(s[i].id == max_id(s));
    }
}

/// The id assigned next is fresh: no live item carries it.
pub proof fn lemma_next_id_fresh(s: Seq<BookView>)
    ensures
        !has_id(s, next_id(s)),
{
    assert forall|i: int| 0 <= i < s.len() implies s[i].id != next_id(s) by {
        lemma_max_id_ge(s, i);
    }
}

/// The images of a sequence of records.
pub open spec fn book_views(s: Seq<Book>) -> Seq<BookView> {
    s.map_values(|b: Book| b@)
}

/// The shared catalog. Exactly one logical instance exists per process;
/// connection handlers reach it only under mutual exclusion, which the
/// embedding program provides around each call.
pub struct Store {
    books: Vec<Book>,
}

impl View for Store {
    type V = Seq<BookView>;

    closed spec fn view(&self) -> Seq<BookView> {
        book_views(self.books@)
    }
}

impl Store {
    /// Every live item has a unique id.
    pub open spec fn wf(&self) -> bool {
        distinct_ids(self@)
    }

    /// A fresh, empty catalog.
    pub fn new() -> (s: Store)
        ensures
            s.wf(),
            s@ == Seq::<BookView>::empty(),
    {
        let s = Store { books: Vec::new() };
        proof {
            assert(s@ =~= Seq::<BookView>::empty());
        }
        s
    }

    /// Whether the id space still has room for one more item; only a
    /// catalog whose maximum id is the largest machine integer lacks it.
    pub fn can_insert(&self) -> (r: bool)
        ensures
            r == (next_id(self@) <= usize::MAX),
    {
        let m = self.max_live_id();
        m < usize::MAX
    }

    /// The largest live id, `0` when the catalog is empty.
    fn max_live_id(&self) -> (m: usize)
        ensures
            m as int == max_id(self@),
    {
        let ghost s = self@;
        let mut m: usize = 0;
        let mut i: usize = 0;
        while i < self.books.len()
            invariant
                i <= self.books.len(),
                s == self@,
                s.len() == self.books.len(),
                m as int == max_id(s.take(i as int)),
            decreases self.books.len() - i,
        {
            proof {
                assert(s.take(i + 1).drop_last() =~= s.take(i as int));
                assert(s.take(i + 1).last() == s[i as int]);
                assert(s[i as int] == self.books@[i as int]@);
            }
            if self.books[i].id > m {
                m = self.books[i].id;
            }
            i = i + 1;
        }
        proof {
            assert(s.take(i as int) =~= s);
        }
        m
    }

    /// A snapshot copy of all live items.
    pub fn list(&self) -> (r: Vec<Book>)
        ensures
            book_views(r@) == self@,
    {
        let mut r: Vec<Book> = Vec::new();
        let mut i: usize = 0;
        while i < self.books.len()
            invariant
                i <= self.books.len(),
                r@.len() == i,
                book_views(r@) =~= self@.take(i as int),
            decreases self.books.len() - i,
        {
            let ghost r0 = r@;
            let b = self.books[i].clone();
            r.push(b);
            proof {
                assert(r@ == r0.push(b));
                assert(r@.len() == i + 1);
                assert forall|j: int| 0 <= j <= i implies book_views(r@)[j] == self@.take(
                    i + 1,
                )[j] by {
                    assert(book_views(r@)[j] == r@[j]@);
                    if j < i {
                        assert(r@[j] == r0[j]);
                        assert(book_views(r0)[j] == r0[j]@);
                        assert(book_views(r0)[j] == self@.take(i as int)[j]);
                    } else {
                        assert(r@[j] == b);
                        assert(book_views(self.books@)[i as int] == self.books@[i as int]@);
                    }
                }
                assert(book_views(r@) =~= self@.take(i + 1));
            }
            i = i + 1;
        }
        proof {
            assert(self@.take(i as int) =~= self@);
        }
        r
    }

    /// The index of the item whose id is `id`, if one is live.
    fn find_index(&self, id: usize) -> (r: Option<usize>)
        requires
            self.wf(),
        ensures
            match r {
                Some(i) => i < self@.len() && self@[i as int].id == id,
                None => !has_id(self@, id as int),
            },
    {
        let mut i: usize = 0;
        while i < self.books.len()
            invariant
                i <= self.books.len(),
                forall|j: int| 0 <= j < i ==> self@[j].id != id,
            decreases self.books.len() - i,
        {
            if self.books[i].id == id {
                return Some(i);
            }
            i = i + 1;
        }
        None
    }

    /// A copy of the item with that id, or nothing when no such item is live.
    pub fn get(&self, id: usize) -> (r: Option<Book>)
        requires
            self.wf(),
        ensures
            match r {
                Some(b) => has_id(self@, id as int) && b@ == self@[index_of_id(self@, id as int)],
                None => !has_id(self@, id as int),
            },
    {
        match self.find_index(id) {
            Some(i) => {
                let b = self.books[i].clone();
                proof {
                    let k = index_of_id(self@, id as int);
                    assert(self@[k].id == id);
                    assert(k == i as int);
                }
                Some(b)
            },
            None => None,
        }
    }

    /// Inserts a new item under the next id and returns the stored record,
    /// id included. Never fails; the new id is fresh among the live ones.
    pub fn insert(&mut self, fields: BookFields) -> (b: Book)
        requires
            old(self).wf(),
            next_id(old(self)@) <= usize::MAX,
        ensures
            final(self).wf(),
            b@ == fields@.with_id(next_id(old(self)@)),
            final(self)@ == old(self)@.push(b@),
    {
        let ghost s0 = self@;
        let m = self.max_live_id();
        let id = m + 1;
        let b = Book { id, title: fields.title, author: fields.author, year: fields.year };
        let stored = b.clone();
        self.books.push(b);
        proof {
            assert(self@ =~= s0.push(stored@));
            lemma_next_id_fresh(s0);
            assert forall|i: int, j: int| 0 <= i < j < self@.len() implies self@[i].id
                != self@[j].id by {
                if j == s0.len() {
                    assert(!(0 <= i < s0.len() && s0[i].id == next_id(s0)));
                }
            }
        }
        stored
    }

    /// Replaces the fields of the item with that id, keeping the id, and
    /// returns the updated record; signals a miss without creating anything.
    pub fn update(&mut self, id: usize, fields: BookFields) -> (r: Option<Book>)
        requires
            old(self).wf(),
        ensures
            final(self).wf(),
            final(self)@.len() == old(self)@.len(),
            match r {
                Some(b) => {
                    &&& has_id(old(self)@, id as int)
                    &&& b@ == fields@.with_id(id as int)
                    &&& final(self)@ == old(self)@.update(index_of_id(old(self)@, id as int), b@)
                },
                None => !has_id(old(self)@, id as int) && final(self)@ == old(self)@,
            },
    {
        let ghost s0 = self@;
        match self.find_index(id) {
            Some(i) => {
                let b = Book {
                    id,
                    title: fields.title,
                    author: fields.author,
                    year: fields.year,
                };
                let stored = b.clone();
                self.books.set(i, b);
                proof {
                    let k = index_of_id(s0, id as int);
                    assert(s0[k].id == id);
                    assert(k == i as int);
                    assert(self@ =~= s0.update(i as int, stored@));
                }
                Some(stored)
            },
            None => {
                proof {
                    assert(self@ =~= s0);
                }
                None
            },
        }
    }

    /// Removes the item with that id; reports whether one was live.
    pub fn delete(&mut self, id: usize) -> (r: bool)
        requires
            old(self).wf(),
        ensures
            final(self).wf(),
            r == has_id(old(self)@, id as int),
            r ==> final(self)@ == old(self)@.remove(index_of_id(old(self)@, id as int)),
            !r ==> final(self)@ == old(self)@,
    {
        let ghost s0 = self@;
        match self.find_index(id) {
            Some(i) => {
                self.books.remove(i);
                proof {
                    let k = index_of_id(s0, id as int);
                    assert(s0[k].id == id);
                    assert(k == i as int);
                    assert(self@ =~= s0.remove(i as int));
                }
                true
            },
            None => {
                proof {
                    assert(self@ =~= s0);
                }
                false
            },
        }
    }
}

// ---------------------------------------------------------------------------
// Laws of the catalog, stated over its mathematical image.
// ---------------------------------------------------------------------------

/// On an empty catalog the first assigned id is `1`.
pub proof fn lemma_first_id_is_one()
    ensures
        next_id(Seq::<BookView>::empty()) == 1,
{
    assert(max_id(Seq::<BookView>::empty()) == 0);
}

/// Reading back the id an add returned yields a record equal in every
/// field to the one added, under that id.
pub proof fn lemma_add_then_get(s: Seq<BookView>, f: BookFieldsView)
    requires
        distinct_ids(s),
    ensures
        ({
            let id = next_id(s);
            let s2 = s.push(f.with_id(id));
            &&& has_id(s2, id)
            &&& s2[index_of_id(s2, id)] == f.with_id(id)
        }),
{
    let id = next_id(s);
    let s2 = s.push(f.with_id(id));
    assert(s2[s.len() as int] == f.with_id(id));
    assert(has_id(s2, id));
    lemma_next_id_fresh(s);
    let k = index_of_id(s2, id);
    assert(0 <= k < s2.len() && s2[k].id == id);
    if k < s.len() {
        assert(s[k].id == id);
        assert(has_id(s, id));
    }
    assert(k == s.len());
}

/// An update is in place: the item count is unchanged, the id stays
/// live, and reading it back yields exactly the new fields under the
/// old id.
pub proof fn lemma_update_then_get(s: Seq<BookView>, id: int, f: BookFieldsView)
    requires
        distinct_ids(s),
        has_id(s, id),
    ensures
        ({
            let s2 = s.update(index_of_id(s, id), f.with_id(id));
            &&& s2.len() == s.len()
            &&& has_id(s2, id)
            &&& s2[index_of_id(s2, id)] == f.with_id(id)
        }),
{
    let k = index_of_id(s, id);
    assert(0 <= k < s.len() && s[k].id == id);
    let s2 = s.update(k, f.with_id(id));
    assert(s2[k] == f.with_id(id));
    assert(has_id(s2, id));
    let k2 = index_of_id(s2, id);
    assert(0 <= k2 < s2.len() && s2[k2].id == id);
    if k2 != k {
        assert(s2[k2] == s[k2]);
        assert(s[k2].id != s[k].id);
    }
    assert(k2 == k);
}

/// A delete is final: once the item with `id` is removed, no live item
/// carries that id, so a later get, update or delete of it misses.
pub proof fn lemma_delete_is_final(s: Seq<BookView>, id: int)
    requires
        distinct_ids(s),
        has_id(s, id),
    ensures
        !has_id(s.remove(index_of_id(s, id)), id),
{
    let k = index_of_id(s, id);
    assert(0 <= k < s.len() && s[k].id == id);
    let s2 = s.remove(k);
    assert forall|j: int| 0 <= j < s2.len() implies s2[j].id != id by {
        if j < k {
            assert(s2[j] == s[j]);
            assert(s[j].id != s[k].id);
        } else {
            assert(s2[j] == s[j + 1]);
            assert(s[j + 1].id != s[k].id);
        }
    }
}

/// The catalog after a run of adds, each assigned its id in turn.
pub open spec fn add_all(s: Seq<BookView>, fs: Seq<BookFieldsView>) -> Seq<BookView>
    decreases fs.len(),
{
    if fs.len() == 0 {
        s
    } else {
        add_all(s.push(fs[0].with_id(next_id(s))), fs.drop_first())
    }
}

/// A run of adds, in whatever order the store serialized them, grows the
/// catalog by exactly one item per add and leaves every pair of live ids
/// distinct: no add is lost and no two adds share an id.
pub proof fn lemma_adds_keep_ids_distinct(s: Seq<BookView>, fs: Seq<BookFieldsView>)
    requires
        distinct_ids(s),
    ensures
        distinct_ids(add_all(s, fs)),
        add_all(s, fs).len() == s.len() + fs.len(),
    decreases fs.len(),
{
    if fs.len() > 0 {
        let s2 = s.push(fs[0].with_id(next_id(s)));
        lemma_next_id_fresh(s);
        assert forall|i: int, j: int| 0 <= i < j < s2.len() implies s2[i].id != s2[j].id by {
            if j == s.len() {
                assert(!(0 <= i < s.len() && s[i].id == next_id(s)));
            }
        }
        lemma_adds_keep_ids_distinct(s2, fs.drop_first());
    }
}

} // verus!
