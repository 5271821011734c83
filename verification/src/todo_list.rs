use vstd::prelude::*;
use crate::errors::TodoError;
use crate::id_pool::{IdPool, PoolView, spec_acquire, spec_release, lemma_unique_index};

verus! {

/// Mathematical model of one todo item: plain values for the scalar fields
/// and, when the item has gained children, the model of its nested list.
#[verifier::ext_equal]
pub ghost struct ItemView {
    pub id: usize,
    pub description: Seq<char>,
    pub completed: bool,
    pub deadline: Option<Seq<char>>,
    pub sub_list: Option<ListView>,
}

/// Mathematical model of one todo list: the items in insertion order and the
/// identifier pool scoped to this level.
#[verifier::ext_equal]
pub ghost struct ListView {
    pub items: Seq<ItemView>,
    pub pool: PoolView,
}

impl ItemView {
    /// An item is well-formed when its nested list, if any, is.
    pub open spec fn wf(self) -> bool
        decreases self,
    {
        match self.sub_list {
            Some(l) => l.wf(),
            None => true,
        }
    }

    /// Every text length in the item is representable on this machine; the
    /// model of every in-memory item satisfies this.
    pub open spec fn fits(self) -> bool
        decreases self,
    {
        &&& self.description.len() <= usize::MAX
        &&& match self.deadline {
            Some(t) => t.len() <= usize::MAX,
            None => true,
        }
        &&& match self.sub_list {
            Some(l) => l.fits(),
            None => true,
        }
    }
}

impl ListView {
    /// The identifiers of the items at this level, in item order.
    pub open spec fn ids(self) -> Seq<usize> {
        Seq::new(self.items.len(), |i: int| self.items[i].id)
    }

    /// A list is well-formed when its pool is, its item identifiers are
    /// pairwise distinct and all marked used in its own pool, and every item
    /// is itself well-formed. Identifiers are scoped to one level: nested
    /// lists carry their own pools.
    pub open spec fn wf(self) -> bool
        decreases self,
    {
        &&& self.pool.wf()
        &&& self.ids().no_duplicates()
        &&& forall|i: int|
            0 <= i < self.items.len() ==> self.pool.used.contains(#[trigger] self.items[i].id)
        &&& forall|i: int| 0 <= i < self.items.len() ==> (#[trigger] self.items[i]).wf()
    }

    pub open spec fn empty() -> ListView {
        ListView { items: Seq::empty(), pool: PoolView::empty() }
    }

    /// Every count, counter and text length in the tree is representable on
    /// this machine; the model of every in-memory list satisfies this.
    pub open spec fn fits(self) -> bool
        decreases self,
    {
        &&& self.items.len() <= usize::MAX
        &&& self.pool.fits()
        &&& forall|i: int| 0 <= i < self.items.len() ==> (#[trigger] self.items[i]).fits()
    }

    /// The items a listing shows: all of them, or only the incomplete ones.
    pub open spec fn shown(self, show_completed: bool) -> Seq<ItemView> {
        shown_of(self.items, show_completed)
    }
}

/// One todo item: a small identifier unique within the owning list, a
/// description, a completed flag, an optional deadline rendered as text, and
/// an optional nested list that exists once the item has gained a child.
#[derive(Debug, PartialEq)]
pub struct TodoItem {
    pub id: usize,
    pub description: String,
    pub completed: bool,
    pub deadline: Option<String>,
    pub sub_list: Option<TodoList>,
}

/// An ordered list of todo items plus the identifier pool for this level.
#[derive(Debug, PartialEq)]
pub struct TodoList {
    pub items: Vec<TodoItem>,
    pub id_pool: IdPool,
}

impl TodoItem {
    pub open spec fn model(self) -> ItemView
        decreases self,
    {
        ItemView {
            id: self.id,
            description: self.description@,
            completed: self.completed,
            deadline: match self.deadline {
                Some(d) => Some(d@),
                None => None,
            },
            sub_list: match self.sub_list {
                Some(l) => Some(l.model()),
                None => None,
            },
        }
    }
}

impl Default for TodoItem {
    /// A blank, incomplete leaf item with identifier zero.
    fn default() -> (r: TodoItem)
        ensures
            r.model() == (ItemView {
                id: 0,
                description: Seq::empty(),
                completed: false,
                deadline: None,
                sub_list: None,
            }),
    {
        TodoItem {
            id: 0,
            description: String::new(),
            completed: false,
            deadline: None,
            sub_list: None,
        }
    }
}

/// The items a listing keeps, in order: all of them when `show` is set,
/// otherwise only those not yet completed.
pub open spec fn shown_of(items: Seq<ItemView>, show: bool) -> Seq<ItemView> {
    items.filter(|it: ItemView| show || !it.completed)
}

/// The models of a sequence of items, in order.
pub open spec fn models_of(s: Seq<TodoItem>) -> Seq<ItemView>
    decreases s,
{
    Seq::new(
        s.len(),
        |i: int|
            if 0 <= i < s.len() {
                s[i].model()
            } else {
                arbitrary()
            },
    )
}

impl TodoList {
    pub open spec fn model(self) -> ListView
        decreases self,
    {
        ListView { items: models_of(self.items@), pool: self.id_pool@ }
    }

    pub open spec fn wf(self) -> bool {
        self.model().wf()
    }

    /// A fresh, empty list with a fresh identifier pool.
    pub fn new() -> (r: TodoList)
        ensures
            r.model() == ListView::empty(),
            r.wf(),
    {
        let r = TodoList { items: Vec::new(), id_pool: IdPool::new() };
        proof {
            assert(r.model().items =~= Seq::<ItemView>::empty());
            assert(r.model() =~= ListView::empty());
        }
        r
    }

    /// The number of incomplete items at this level alone; nested items are
    /// not counted.
    pub fn todo_len(&self) -> (n: usize)
        ensures
            n == self.model().shown(false).len(),
    {
        let mut n: usize = 0;
        let mut j: usize = 0;
        while j < self.items.len()
            invariant
                j <= self.items.len(),
                n == shown_of(models_of(self.items@).subrange(0, j as int), false).len(),
                n <= j,
            decreases self.items.len() - j,
        {
            proof {
                lemma_shown_step(models_of(self.items@), false, j as int);
            }
            if !self.items[j].completed {
                n = n + 1;
            }
            j = j + 1;
        }
        proof {
            assert(models_of(self.items@).subrange(0, self.items@.len() as int) =~= models_of(
                self.items@,
            ));
        }
        n
    }

    /// The items to display at this level, in order: every item when
    /// `show_completed` is set, otherwise only the incomplete ones.
    pub fn list_items<'a>(&'a self, show_completed: bool) -> (r: Vec<&'a TodoItem>)
        ensures
            r@.len() == self.model().shown(show_completed).len(),
            forall|i: int|
                0 <= i < r@.len() ==> (#[trigger] r@[i]).model() == self.model().shown(
                    show_completed,
                )[i],
    {
        let mut r: Vec<&'a TodoItem> = Vec::new();
        let mut j: usize = 0;
        while j < self.items.len()
            invariant
                j <= self.items.len(),
                r@.len() == shown_of(models_of(self.items@).subrange(0, j as int), show_completed).len(),
                forall|i: int|
                    0 <= i < r@.len() ==> (#[trigger] r@[i]).model() == shown_of(
                        models_of(self.items@).subrange(0, j as int),
                        show_completed,
                    )[i],
            decreases self.items.len() - j,
        {
            proof {
                lemma_shown_step(models_of(self.items@), show_completed, j as int);
            }
            if show_completed || !self.items[j].completed {
                r.push(&self.items[j]);
            }
            j = j + 1;
        }
        proof {
            assert(models_of(self.items@).subrange(0, self.items@.len() as int) =~= models_of(
                self.items@,
            ));
        }
        r
    }
}

/// What adding an item to a list does: acquire an identifier from this
/// level's pool and append a fresh, incomplete item carrying the given
/// description and deadline text. Returns the new list and the new item's
/// identifier.
pub open spec fn spec_add(lv: ListView, desc: Seq<char>, dl: Option<Seq<char>>) -> (ListView, usize) {
    let (pool2, id) = spec_acquire(lv.pool);
    (
        ListView {
            items: lv.items.push(
                ItemView {
                    id,
                    description: desc,
                    completed: false,
                    deadline: dl,
                    sub_list: None,
                },
            ),
            pool: pool2,
        },
        id,
    )
}

/// An item's nested list, or a fresh empty one where none exists yet.
pub open spec fn sub_or_empty(it: ItemView) -> ListView {
    match it.sub_list {
        Some(l) => l,
        None => ListView::empty(),
    }
}

/// What adding under a parent does: add to the parent's nested list (lazily
/// created), leaving this level's own items and pool otherwise unchanged.
pub open spec fn spec_add_under(
    lv: ListView,
    parent: int,
    desc: Seq<char>,
    dl: Option<Seq<char>>,
) -> (ListView, usize) {
    let (sub2, id) = spec_add(sub_or_empty(lv.items[parent]), desc, dl);
    (
        ListView {
            items: lv.items.update(parent, ItemView { sub_list: Some(sub2), ..lv.items[parent] }),
            pool: lv.pool,
        },
        id,
    )
}

impl ListView {
    /// The machine-limit precondition of an add: the pool that will issue the
    /// new identifier has not exhausted `usize`.
    pub open spec fn can_add(self, parent_id: Option<usize>) -> bool {
        match parent_id {
            None => self.pool.next < usize::MAX,
            Some(p) => self.ids().contains(p) ==> sub_or_empty(
                self.items[self.ids().index_of(p)],
            ).pool.next < usize::MAX,
        }
    }
}

impl TodoList {
    /// Append a new incomplete item at this level, acquiring its identifier
    /// from this level's pool.
    pub(crate) fn push_new(&mut self, description: String, deadline: Option<String>) -> (id: usize)
        requires
            old(self).wf(),
            old(self).model().pool.next < usize::MAX,
        ensures
            final(self).wf(),
            (final(self).model(), id) == spec_add(
                old(self).model(),
                description@,
                deadline.deep_view(),
            ),
    {
        let ghost lv = self.model();
        let id = self.id_pool.acquire_id();
        let item = TodoItem { id, description, completed: false, deadline, sub_list: None };
        let ghost iv = item.model();
        self.items.push(item);
        proof {
            lemma_models_push(old(self).items@, item);
            let (lv2, id2) = spec_add(lv, description@, deadline.deep_view());
            assert(iv == ItemView {
                id,
                description: description@,
                completed: false,
                deadline: deadline.deep_view(),
                sub_list: None,
            });
            assert(final(self).model() =~= lv2);
            lemma_wf_after_add(lv, description@, deadline.deep_view());
        }
        id
    }

    /// Add a new item: under the parent with identifier `parent_id` when one
    /// is given (its nested list is created lazily), else at the root level.
    /// Fails with `ParentNotFound`, leaving the list unchanged, exactly when
    /// `parent_id` names no item at this level. On success returns the new
    /// item's identifier, issued by the target list's own pool.
    pub fn add_item(
        &mut self,
        description: String,
        deadline: Option<String>,
        parent_id: Option<usize>,
    ) -> (r: Result<usize, TodoError>)
        requires
            old(self).wf(),
            old(self).model().can_add(parent_id),
        ensures
            final(self).wf(),
            match r {
                Ok(id) => match parent_id {
                    None => (final(self).model(), id) == spec_add(
                        old(self).model(),
                        description@,
                        deadline.deep_view(),
                    ),
                    Some(p) => {
                        &&& old(self).model().ids().contains(p)
                        &&& (final(self).model(), id) == spec_add_under(
                            old(self).model(),
                            old(self).model().ids().index_of(p),
                            description@,
                            deadline.deep_view(),
                        )
                    },
                },
                Err(e) => {
                    &&& e == TodoError::ParentNotFound
                    &&& parent_id matches Some(p) && !old(self).model().ids().contains(p)
                    &&& final(self).model() == old(self).model()
                },
            },
    {
        let ghost lv = self.model();
        let ghost gdesc = description@;
        let ghost gdl = deadline.deep_view();
        match parent_id {
            None => {
                let id = self.push_new(description, deadline);
                Ok(id)
            },
            Some(p) => {
                match find_by_id(&self.items, p) {
                    None => {
                        proof {
                            lemma_no_such_id(lv, p);
                        }
                        Err(TodoError::ParentNotFound)
                    },
                    Some(j) => {
                        proof {
                            assert(lv.ids()[j as int] == p);
                            lemma_unique_index(lv.ids(), p, j as int);
                        }
                        let mut item = self.items.remove(j);
                        let ghost iv = item.model();
                        let mut sub = match item.sub_list {
                            Some(l) => l,
                            None => TodoList::new(),
                        };
                        proof {
                            assert(iv == lv.items[j as int]);
                            assert(sub.model() == sub_or_empty(iv));
                            assert(iv.wf());
                            assert(sub.wf());
                            assert(sub.model().pool.next < usize::MAX);
                        }
                        let ghost subpre = sub.model();
                        let ghost dpre = description@;
                        let ghost dlpre = deadline.deep_view();
                        let id = sub.push_new(description, deadline);
                        proof {
                            assert((sub.model(), id) == spec_add(subpre, dpre, dlpre));
                            assert(sub.model() == spec_add(sub_or_empty(iv), gdesc, gdl).0);
                            assert(id == spec_add(sub_or_empty(iv), gdesc, gdl).1);
                        }
                        item.sub_list = Some(sub);
                        let ghost iv2 = item.model();
                        self.items.insert(j, item);
                        proof {
                            let parent = lv.ids().index_of(p);
                            let (lv2, id2) = spec_add_under(lv, parent, gdesc, gdl);
                            assert(iv2 == ItemView {
                                sub_list: Some(spec_add(sub_or_empty(iv), gdesc, gdl).0),
                                ..iv
                            });
                            assert(parent == j as int);
                            assert(id == id2);
                            lemma_remove_insert_is_update(old(self).items@, j as int, item);
                            lemma_models_update(old(self).items@, j as int, item);
                            assert(final(self).model().items =~= lv2.items);
                            assert(final(self).model() =~= lv2);
                            assert((final(self).model(), id) =~= spec_add_under(
                                lv,
                                lv.ids().index_of(p),
                                gdesc,
                                gdl,
                            ));
                            lemma_wf_after_update_item(lv, j as int, iv2);
                        }
                        Ok(id)
                    },
                }
            },
        }
    }

    /// Mark the item with identifier `id` at this level as completed.
    /// Idempotent: completing an already-completed item succeeds again.
    /// Fails with `ItemNotFound`, leaving the list unchanged, exactly when no
    /// item at this level has that identifier. On success returns the item's
    /// position and leaves everything but the completed flag unchanged.
    pub fn complete_item(&mut self, id: usize) -> (r: Result<usize, TodoError>)
        requires
            old(self).wf(),
        ensures
            final(self).wf(),
            match r {
                Ok(j) => {
                    &&& 0 <= j < old(self).model().items.len()
                    &&& old(self).model().ids().contains(id)
                    &&& j == old(self).model().ids().index_of(id)
                    &&& final(self).model() == (ListView {
                        items: old(self).model().items.update(
                            j as int,
                            ItemView { completed: true, ..old(self).model().items[j as int] },
                        ),
                        pool: old(self).model().pool,
                    })
                },
                Err(e) => {
                    &&& e == (TodoError::ItemNotFound { id })
                    &&& !old(self).model().ids().contains(id)
                    &&& final(self).model() == old(self).model()
                },
            },
    {
        let ghost lv = self.model();
        match find_by_id(&self.items, id) {
            None => {
                proof {
                    lemma_no_such_id(lv, id);
                }
                Err(TodoError::ItemNotFound { id })
            },
            Some(j) => {
                proof {
                    assert(lv.ids()[j as int] == id);
                    lemma_unique_index(lv.ids(), id, j as int);
                }
                let mut item = self.items.remove(j);
                let ghost iv = item.model();
                item.completed = true;
                let ghost iv2 = item.model();
                self.items.insert(j, item);
                proof {
                    assert(iv2 == ItemView { completed: true, ..iv });
                    lemma_remove_insert_is_update(old(self).items@, j as int, item);
                    lemma_models_update(old(self).items@, j as int, item);
                    assert(final(self).model().items =~= lv.items.update(j as int, iv2));
                    assert(final(self).model() =~= (ListView {
                        items: lv.items.update(j as int, iv2),
                        pool: lv.pool,
                    }));
                    lemma_wf_after_update_item(lv, j as int, iv2);
                }
                Ok(j)
            },
        }
    }

    /// Overwrite the description of the item with identifier `id` at this
    /// level; overwrite its deadline only when a new one is supplied, so that
    /// omitting the deadline preserves the existing one. Fails with
    /// `ItemNotFound`, leaving the list unchanged, exactly when no item at
    /// this level has that identifier. On success returns the item's
    /// position.
    pub fn edit_item(
        &mut self,
        id: usize,
        description: String,
        deadline: Option<String>,
    ) -> (r: Result<usize, TodoError>)
        requires
            old(self).wf(),
        ensures
            final(self).wf(),
            match r {
                Ok(j) => {
                    &&& 0 <= j < old(self).model().items.len()
                    &&& old(self).model().ids().contains(id)
                    &&& j == old(self).model().ids().index_of(id)
                    &&& final(self).model() == (ListView {
                        items: old(self).model().items.update(
                            j as int,
                            ItemView {
                                description: description@,
                                deadline: if deadline is Some {
                                    deadline.deep_view()
                                } else {
                                    old(self).model().items[j as int].deadline
                                },
                                ..old(self).model().items[j as int]
                            },
                        ),
                        pool: old(self).model().pool,
                    })
                },
                Err(e) => {
                    &&& e == (TodoError::ItemNotFound { id })
                    &&& !old(self).model().ids().contains(id)
                    &&& final(self).model() == old(self).model()
                },
            },
    {
        let ghost lv = self.model();
        match find_by_id(&self.items, id) {
            None => {
                proof {
                    lemma_no_such_id(lv, id);
                }
                Err(TodoError::ItemNotFound { id })
            },
            Some(j) => {
                proof {
                    assert(lv.ids()[j as int] == id);
                    lemma_unique_index(lv.ids(), id, j as int);
                }
                let mut item = self.items.remove(j);
                let ghost iv = item.model();
                item.description = description;
                match deadline {
                    Some(d) => {
                        item.deadline = Some(d);
                    },
                    None => {},
                }
                let ghost iv2 = item.model();
                self.items.insert(j, item);
                proof {
                    lemma_remove_insert_is_update(old(self).items@, j as int, item);
                    lemma_models_update(old(self).items@, j as int, item);
                    assert(final(self).model().items =~= lv.items.update(j as int, iv2));
                    assert(final(self).model() =~= (ListView {
                        items: lv.items.update(j as int, iv2),
                        pool: lv.pool,
                    }));
                    lemma_wf_after_update_item(lv, j as int, iv2);
                }
                Ok(j)
            },
        }
    }

    /// Remove the item with identifier `id` from this level, returning its
    /// identifier to this level's pool for reuse and handing the removed item
    /// back. Fails with `ItemNotFound`, leaving the list unchanged, exactly
    /// when no item at this level has that identifier.
    pub fn remove_item(&mut self, id: usize) -> (r: Result<TodoItem, TodoError>)
        requires
            old(self).wf(),
        ensures
            final(self).wf(),
            match r {
                Ok(item) => {
                    &&& old(self).model().ids().contains(id)
                    &&& item.model() == old(self).model().items[old(self).model().ids().index_of(
                        id,
                    )]
                    &&& item.model().id == id
                    &&& Some(final(self).model().pool) == spec_release(old(self).model().pool, id)
                    &&& final(self).model().items == old(self).model().items.remove(
                        old(self).model().ids().index_of(id),
                    )
                },
                Err(e) => {
                    &&& e == (TodoError::ItemNotFound { id })
                    &&& !old(self).model().ids().contains(id)
                    &&& final(self).model() == old(self).model()
                },
            },
    {
        let ghost lv = self.model();
        match find_by_id(&self.items, id) {
            None => {
                proof {
                    lemma_no_such_id(lv, id);
                }
                Err(TodoError::ItemNotFound { id })
            },
            Some(j) => {
                proof {
                    assert(lv.ids()[j as int] == id);
                    lemma_unique_index(lv.ids(), id, j as int);
                    assert(lv.pool.used.contains(id));
                }
                match self.id_pool.release_id(id) {
                    // Unreachable: under the list invariant the found item's
                    // identifier is in use, so the release cannot fail.
                    Err(e) => {
                        proof {
                            assert(false);
                        }
                        Err(e)
                    },
                    Ok(()) => {
                        let item = self.items.remove(j);
                        proof {
                            lemma_models_remove(old(self).items@, j as int);
                            assert(final(self).model().items =~= lv.items.remove(j as int));
                            lemma_wf_after_remove(lv, j as int, id);
                        }
                        Ok(item)
                    },
                }
            },
        }
    }
}

/// The position of the first item with the given identifier at this level,
/// or `None` when the level has no such item.
fn find_by_id(items: &Vec<TodoItem>, id: usize) -> (r: Option<usize>)
    ensures
        match r {
            Some(j) => {
                &&& 0 <= j < items@.len()
                &&& items@[j as int].id == id
                &&& forall|k: int| 0 <= k < j ==> items@[k].id != id
            },
            None => forall|k: int| 0 <= k < items@.len() ==> items@[k].id != id,
        },
{
    let n = items.len();
    let mut j: usize = 0;
    while j < n
        invariant
            n == items@.len(),
            j <= n,
            forall|k: int| 0 <= k < j ==> items@[k].id != id,
        decreases n - j,
    {
        if items[j].id == id {
            return Some(j);
        }
        j = j + 1;
    }
    None
}

/// Whether a vector holds a value.
fn contains_u(v: &Vec<usize>, x: usize) -> (b: bool)
    ensures
        b == v@.contains(x),
{
    let n = v.len();
    let mut i: usize = 0;
    while i < n
        invariant
            i <= n,
            n == v@.len(),
            forall|k: int| 0 <= k < i ==> v@[k] != x,
        decreases n - i,
    {
        if v[i] == x {
            return true;
        }
        i = i + 1;
    }
    proof {
        if v@.contains(x) {
            let k = choose|k: int| 0 <= k < v@.len() && v@[k] == x;
        }
    }
    false
}

/// Whether a vector holds no value twice.
fn no_dups(v: &Vec<usize>) -> (b: bool)
    ensures
        b == v@.no_duplicates(),
{
    let n = v.len();
    let mut i: usize = 0;
    while i < n
        invariant
            i <= n,
            n == v@.len(),
            forall|a: int, b: int| 0 <= a < b < i ==> v@[a] != v@[b],
        decreases n - i,
    {
        let mut j: usize = 0;
        while j < i
            invariant
                j <= i < n,
                n == v@.len(),
                forall|k: int| 0 <= k < j ==> v@[k] != v@[i as int],
            decreases i - j,
        {
            if v[j] == v[i] {
                proof {
                    assert(!v@.no_duplicates()) by {
                        if v@.no_duplicates() {
                            assert(v@[j as int] != v@[i as int]);
                        }
                    }
                }
                return false;
            }
            j = j + 1;
        }
        i = i + 1;
    }
    true
}

impl IdPool {
    /// Decide the pool invariant of a value of unknown provenance, such as
    /// one read back from a file: the answer equals well-formedness.
    pub fn check_wf(&self) -> (b: bool)
        ensures
            b == self.wf(),
    {
        if !no_dups(&self.used_ids) {
            return false;
        }
        if !no_dups(&self.recycled_ids) {
            return false;
        }
        let nu = self.used_ids.len();
        let mut i: usize = 0;
        while i < nu
            invariant
                i <= nu,
                nu == self.used_ids@.len(),
                forall|k: int|
                    0 <= k < i ==> (#[trigger] self.used_ids@[k]) < self.next_id
                        && !self.recycled_ids@.contains(self.used_ids@[k]),
            decreases nu - i,
        {
            if self.used_ids[i] >= self.next_id {
                proof {
                    if self.wf() {
                        assert(self@.used[i as int] < self@.next);
                    }
                }
                return false;
            }
            if contains_u(&self.recycled_ids, self.used_ids[i]) {
                proof {
                    if self.wf() {
                        let k = choose|k: int|
                            0 <= k < self.recycled_ids@.len() && self.recycled_ids@[k]
                                == self.used_ids@[i as int];
                        assert(!self@.used.contains(self@.recycled[k]));
                        assert(self@.used.contains(self@.used[i as int]));
                    }
                }
                return false;
            }
            i = i + 1;
        }
        let nr = self.recycled_ids.len();
        let mut j: usize = 0;
        while j < nr
            invariant
                j <= nr,
                nr == self.recycled_ids@.len(),
                forall|k: int| 0 <= k < j ==> (#[trigger] self.recycled_ids@[k]) < self.next_id,
            decreases nr - j,
        {
            if self.recycled_ids[j] >= self.next_id {
                proof {
                    if self.wf() {
                        assert(self@.recycled[j as int] < self@.next);
                    }
                }
                return false;
            }
            j = j + 1;
        }
        if self.recycled_ids.len() <= usize::MAX - self.used_ids.len() && self.next_id
            > self.used_ids.len() + self.recycled_ids.len() {
            proof {
                if self.wf() {
                    crate::id_pool::lemma_pool_counter_bound(self@);
                }
            }
            return false;
        }
        let mut id: usize = 0;
        while id < self.next_id
            invariant
                id <= self.next_id,
                forall|x: usize|
                    x < id ==> (#[trigger] self.used_ids@.contains(x))
                        || self.recycled_ids@.contains(x),
            decreases self.next_id - id,
        {
            if !contains_u(&self.used_ids, id) && !contains_u(&self.recycled_ids, id) {
                proof {
                    if self.wf() {
                        assert(self@.used.contains(id) || self@.recycled.contains(id));
                    }
                }
                return false;
            }
            id = id + 1;
        }
        proof {
            assert forall|i2: int|
                0 <= i2 < self@.recycled.len() implies !self@.used.contains(
                #[trigger] self@.recycled[i2],
            ) by {
                if self@.used.contains(self@.recycled[i2]) {
                    let k = choose|k: int|
                        0 <= k < self@.used.len() && self@.used[k] == self@.recycled[i2];
                    assert(!self.recycled_ids@.contains(self.used_ids@[k]));
                    assert(self.recycled_ids@[i2] == self.used_ids@[k]);
                }
            }
        }
        true
    }
}

impl TodoList {
    /// Decide the whole tree invariant of a list of unknown provenance, such
    /// as one read back from a file: pool invariants at every level, item
    /// identifiers distinct and marked used in their own level's pool. The
    /// answer equals well-formedness, so a saved well-formed list is
    /// accepted when loaded back.
    pub fn check_wf(&self) -> (b: bool)
        ensures
            b == self.wf(),
        decreases *self,
    {
        let ghost lv = self.model();
        if !self.id_pool.check_wf() {
            return false;
        }
        let n = self.items.len();
        let mut i: usize = 0;
        while i < n
            invariant
                i <= n,
                n == self.items@.len(),
                lv == self.model(),
                self.id_pool.wf(),
                forall|a: int, b: int| 0 <= a < b < i ==> lv.items[a].id != lv.items[b].id,
                forall|k: int|
                    0 <= k < i ==> self.id_pool@.used.contains(#[trigger] lv.items[k].id),
                forall|k: int| 0 <= k < i ==> (#[trigger] lv.items[k]).wf(),
            decreases n - i,
        {
            let mut j: usize = 0;
            while j < i
                invariant
                    j <= i < n,
                    n == self.items@.len(),
                    lv == self.model(),
                    forall|k: int| 0 <= k < j ==> lv.items[k].id != lv.items[i as int].id,
                decreases i - j,
            {
                if self.items[j].id == self.items[i].id {
                    proof {
                        if self.wf() {
                            assert(lv.ids()[j as int] != lv.ids()[i as int]);
                        }
                    }
                    return false;
                }
                j = j + 1;
            }
            if !contains_u(&self.id_pool.used_ids, self.items[i].id) {
                proof {
                    if self.wf() {
                        assert(lv.pool.used.contains(lv.items[i as int].id));
                    }
                }
                return false;
            }
            match &self.items[i].sub_list {
                None => {},
                Some(l) => {
                    if !l.check_wf() {
                        proof {
                            if self.wf() {
                                assert(lv.items[i as int].wf());
                            }
                        }
                        return false;
                    }
                    proof {
                        assert(lv.items[i as int].wf());
                    }
                },
            }
            i = i + 1;
        }
        proof {
            assert(lv.ids().no_duplicates()) by {
                assert forall|a: int, b: int|
                    0 <= a < lv.ids().len() && 0 <= b < lv.ids().len() && a != b implies lv.ids()[a]
                    != lv.ids()[b] by {
                    assert(lv.ids()[a] == lv.items[a].id);
                    assert(lv.ids()[b] == lv.items[b].id);
                }
            }
        }
        true
    }
}

/// Pushing an item appends its model to the models of the sequence.
proof fn lemma_models_push(s: Seq<TodoItem>, x: TodoItem)
    ensures
        models_of(s.push(x)) =~= models_of(s).push(x.model()),
{
}

/// Updating one item updates exactly its model.
pub(crate) proof fn lemma_models_update(s: Seq<TodoItem>, j: int, x: TodoItem)
    requires
        0 <= j < s.len(),
    ensures
        models_of(s.update(j, x)) =~= models_of(s).update(j, x.model()),
{
}

/// Removing one item removes exactly its model.
proof fn lemma_models_remove(s: Seq<TodoItem>, j: int)
    requires
        0 <= j < s.len(),
    ensures
        models_of(s.remove(j)) =~= models_of(s).remove(j),
{
    s.remove_ensures(j);
    models_of(s).remove_ensures(j);
}

/// Taking an element out and putting another back at the same position is a
/// point update.
pub(crate) proof fn lemma_remove_insert_is_update(s: Seq<TodoItem>, j: int, x: TodoItem)
    requires
        0 <= j < s.len(),
    ensures
        s.remove(j).insert(j, x) =~= s.update(j, x),
{
    s.remove_ensures(j);
    s.remove(j).insert_ensures(j, x);
}

/// When a scan of the whole level finds no item with the identifier, the
/// identifier sequence does not contain it.
proof fn lemma_no_such_id(lv: ListView, id: usize)
    requires
        forall|k: int| 0 <= k < lv.items.len() ==> (#[trigger] lv.items[k]).id != id,
    ensures
        !lv.ids().contains(id),
{
    if lv.ids().contains(id) {
        let k = choose|k: int| 0 <= k < lv.ids().len() && lv.ids()[k] == id;
        assert(lv.items[k].id == id);
    }
}

/// Adding preserves well-formedness of a list.
proof fn lemma_wf_after_add(lv: ListView, desc: Seq<char>, dl: Option<Seq<char>>)
    requires
        lv.wf(),
        lv.pool.next < usize::MAX,
    ensures
        spec_add(lv, desc, dl).0.wf(),
{
    let (lv2, id) = spec_add(lv, desc, dl);
    let (pool2, id2) = spec_acquire(lv.pool);
    crate::id_pool::lemma_acquire_preserves_wf(lv.pool);
    assert(!lv.pool.used.contains(id));
    assert(lv2.ids() =~= lv.ids().push(id));
    assert(!lv.ids().contains(id)) by {
        if lv.ids().contains(id) {
            let k = choose|k: int| 0 <= k < lv.ids().len() && lv.ids()[k] == id;
            assert(lv.pool.used.contains(lv.items[k].id));
        }
    }
    crate::id_pool::lemma_push_no_duplicates(lv.ids(), id);
    assert forall|i: int|
        0 <= i < lv2.items.len() implies lv2.pool.used.contains(#[trigger] lv2.items[i].id) by {
        if i < lv.items.len() {
            assert(lv.pool.used.contains(lv.items[i].id));
            let k = choose|k: int| 0 <= k < lv.pool.used.len() && lv.pool.used[k] == lv.items[i].id;
            assert(pool2.used[k] == lv.items[i].id);
        } else {
            assert(lv2.items[i].id == id);
            assert(pool2.used[pool2.used.len() - 1] == id);
        }
    }
    assert forall|i: int| 0 <= i < lv2.items.len() implies (#[trigger] lv2.items[i]).wf() by {
        if i == lv.items.len() {
            assert(lv2.items[i] == ItemView {
                id,
                description: desc,
                completed: false,
                deadline: dl,
                sub_list: None,
            });
        }
    }
}

/// A point update that keeps the identifier and the item's own
/// well-formedness keeps the list well-formed.
pub(crate) proof fn lemma_wf_after_update_item(lv: ListView, j: int, iv2: ItemView)
    requires
        lv.wf(),
        0 <= j < lv.items.len(),
        iv2.id == lv.items[j].id,
        iv2.wf(),
    ensures
        (ListView { items: lv.items.update(j, iv2), pool: lv.pool }).wf(),
{
    let lv2 = ListView { items: lv.items.update(j, iv2), pool: lv.pool };
    assert(lv2.ids() =~= lv.ids());
}

/// Removing an item and releasing its identifier keeps the list well-formed.
proof fn lemma_wf_after_remove(lv: ListView, j: int, id: usize)
    requires
        lv.wf(),
        0 <= j < lv.items.len(),
        lv.items[j].id == id,
        lv.ids().index_of(id) == j,
    ensures
        spec_release(lv.pool, id) matches Some(pool2) && (ListView {
            items: lv.items.remove(j),
            pool: pool2,
        }).wf(),
{
    assert(lv.pool.used.contains(id)) by {
        assert(lv.pool.used.contains(lv.items[j].id));
    }
    crate::id_pool::lemma_release_preserves_wf(lv.pool, id);
    let pool2 = spec_release(lv.pool, id)->Some_0;
    let lv2 = ListView { items: lv.items.remove(j), pool: pool2 };
    lv.items.remove_ensures(j);
    assert(lv2.ids() =~= lv.ids().remove(j));
    lv.ids().remove_ensures(j);
    assert(lv2.ids().no_duplicates()) by {
        assert forall|a: int, b: int|
            0 <= a < lv2.ids().len() && 0 <= b < lv2.ids().len() && a != b implies lv2.ids()[a]
            != lv2.ids()[b] by {
            let a0 = if a < j { a } else { a + 1 };
            let b0 = if b < j { b } else { b + 1 };
            assert(lv2.ids()[a] == lv.ids()[a0]);
            assert(lv2.ids()[b] == lv.ids()[b0]);
        }
    }
    let ju = lv.pool.used.index_of(id);
    assert(0 <= ju < lv.pool.used.len() && lv.pool.used[ju] == id);
    lv.pool.used.remove_ensures(ju);
    assert forall|i: int|
        0 <= i < lv2.items.len() implies lv2.pool.used.contains(#[trigger] lv2.items[i].id) by {
        let i0 = if i < j { i } else { i + 1 };
        assert(lv2.items[i] == lv.items[i0]);
        assert(lv.pool.used.contains(lv.items[i0].id));
        let k = choose|k: int| 0 <= k < lv.pool.used.len() && lv.pool.used[k] == lv.items[i0].id;
        assert(lv.items[i0].id != id) by {
            assert(lv.ids()[i0] == lv.items[i0].id);
            assert(lv.ids()[j] == id);
        }
        assert(k != ju);
        if k < ju {
            assert(pool2.used[k] == lv.items[i0].id);
        } else {
            assert(pool2.used[k - 1] == lv.items[i0].id);
        }
    }
    assert forall|i: int| 0 <= i < lv2.items.len() implies (#[trigger] lv2.items[i]).wf() by {
        let i0 = if i < j { i } else { i + 1 };
        assert(lv2.items[i] == lv.items[i0]);
        assert(lv.items[i0].wf());
    }
}

/// Recycling law across the list operations: adding an item and then
/// removing it by its identifier makes that identifier the one the very next
/// add on the same list receives.
pub proof fn lemma_add_remove_add(
    lv: ListView,
    d1: Seq<char>,
    t1: Option<Seq<char>>,
    d2: Seq<char>,
    t2: Option<Seq<char>>,
)
    requires
        lv.wf(),
        lv.pool.next < usize::MAX,
    ensures
        ({
            let (lv1, id) = spec_add(lv, d1, t1);
            &&& lv1.ids().contains(id)
            &&& spec_release(lv1.pool, id) is Some
            &&& spec_add(
                ListView {
                    items: lv1.items.remove(lv1.ids().index_of(id)),
                    pool: spec_release(lv1.pool, id)->Some_0,
                },
                d2,
                t2,
            ).1 == id
        }),
{
    let (lv1, id) = spec_add(lv, d1, t1);
    assert(lv1.ids().contains(id)) by {
        assert(lv1.ids()[lv1.ids().len() - 1] == id);
    }
    assert(lv1.pool.used.contains(id)) by {
        assert(lv1.pool.used[lv1.pool.used.len() - 1] == id);
    }
    let pool2 = spec_release(lv1.pool, id)->Some_0;
    assert(pool2.recycled.last() == id);
}

/// Keeping one element more of a prefix appends the element to the shown
/// sequence exactly when it is to be shown.
proof fn lemma_shown_step(s: Seq<ItemView>, show: bool, j: int)
    requires
        0 <= j < s.len(),
    ensures
        shown_of(s.subrange(0, j + 1), show) == if show || !s[j].completed {
            shown_of(s.subrange(0, j), show).push(s[j])
        } else {
            shown_of(s.subrange(0, j), show)
        },
{
    let t = s.subrange(0, j + 1);
    assert(t.drop_last() =~= s.subrange(0, j));
    assert(t.last() == s[j]);
    reveal_with_fuel(Seq::filter, 2);
}

} // verus!
