//! The item store: an ordered list of todo items addressed by 0-based
//! position, with the mutations `add`, `edit`, `finish`, `remove` and `clean`.

use vstd::prelude::*;
use vstd::pervasive::VecAdditionalExecFns;

verus! {

/// Mathematical model of one todo item: the description as a character
/// sequence and the done flag.
pub ghost struct ItemModel {
    pub description: Seq<char>,
    pub status: bool,
}

/// One todo entry: a description and a done flag (`status == true` is done).
pub struct TodoItem {
    pub description: String,
    pub status: bool,
}

impl View for TodoItem {
    type V = ItemModel;

    open spec fn view(&self) -> ItemModel {
        ItemModel { description: self.description@, status: self.status }
    }
}

/// The errors the item store reports: an index that addresses no current
/// item, or a persisted document that cannot be decoded.
#[derive(Debug, PartialEq, Eq, Structural, Clone, Copy)]
pub enum TodoError {
    OutOfRange,
    CorruptData,
}

/// An item survives `clean` exactly when it is not done.
pub open spec fn keep_item(it: ItemModel) -> bool {
    !it.status
}

/// The list that remains after dropping every done item, order preserved.
pub open spec fn cleaned(s: Seq<ItemModel>) -> Seq<ItemModel> {
    s.filter(|it: ItemModel| keep_item(it))
}

/// An ordered list of todo items; the position of an item is its only
/// identity, so removing or cleaning shifts the indices of later items.
pub struct TodoList {
    pub items: Vec<TodoItem>,
}

impl View for TodoList {
    type V = Seq<ItemModel>;

    open spec fn view(&self) -> Seq<ItemModel> {
        self.items@.map_values(|it: TodoItem| it@)
    }
}

/// One row of the rendered table: the item's current index, its done flag,
/// and its description.
pub struct DisplayRow {
    pub index: usize,
    pub done: bool,
    pub description: String,
}

impl TodoList {
    /// An empty list.
    pub fn new() -> (r: TodoList)
        ensures
            r@ == Seq::<ItemModel>::empty(),
    {
        let l = TodoList { items: Vec::new() };
        proof {
            assert(l@ =~= Seq::<ItemModel>::empty());
        }
        l
    }

    /// Appends a new, not-done item with the given description.
    pub fn add(&mut self, desc: &str)
        ensures
            final(self)@ == old(self)@.push(
                ItemModel { description: desc@, status: false },
            ),
    {
        self.items.push(TodoItem { description: desc.to_owned(), status: false });
        proof {
            assert(self@ =~= old(self)@.push(
                ItemModel { description: desc@, status: false },
            ));
        }
    }

    /// Replaces the description of the item at `index`; every other field of
    /// every item is untouched. Out-of-range indices are rejected and leave
    /// the list unchanged.
    pub fn edit(&mut self, index: usize, desc: &str) -> (r: Result<(), TodoError>)
        ensures
            r is Ok <==> index < old(self)@.len(),
            r is Err ==> *final(self) == *old(self) && r == Err::<(), TodoError>(
                TodoError::OutOfRange,
            ),
            r is Ok ==> {
                &&& final(self)@.len() == old(self)@.len()
                &&& final(self)@[index as int].description == desc@
                &&& final(self)@[index as int].status == old(self)@[index as int].status
                &&& forall|j: int|
                    0 <= j < old(self)@.len() && j != index ==> final(self)@[j] == old(self)@[j]
            },
    {
        if index < self.items.len() {
            let status = self.items[index].status;
            self.items.set(index, TodoItem { description: desc.to_owned(), status });
            Ok(())
        } else {
            Err(TodoError::OutOfRange)
        }
    }

    /// Marks the item at `index` done; finishing an already-done item is a
    /// no-op success. Out-of-range indices are rejected and leave the list
    /// unchanged.
    pub fn finish(&mut self, index: usize) -> (r: Result<(), TodoError>)
        ensures
            r is Ok <==> index < old(self)@.len(),
            r is Err ==> *final(self) == *old(self) && r == Err::<(), TodoError>(
                TodoError::OutOfRange,
            ),
            r is Ok ==> {
                &&& final(self)@.len() == old(self)@.len()
                &&& final(self)@[index as int].description == old(self)@[index as int].description
                &&& final(self)@[index as int].status == true
                &&& forall|j: int|
                    0 <= j < old(self)@.len() && j != index ==> final(self)@[j] == old(self)@[j]
            },
    {
        if index < self.items.len() {
            let desc = self.items[index].description.clone();
            self.items.set(index, TodoItem { description: desc, status: true });
            Ok(())
        } else {
            Err(TodoError::OutOfRange)
        }
    }

    /// Deletes the item at `index`; items before it are unchanged and items
    /// after it shift down one position, order preserved. Out-of-range
    /// indices are rejected and leave the list unchanged.
    pub fn remove(&mut self, index: usize) -> (r: Result<(), TodoError>)
        ensures
            r is Ok <==> index < old(self)@.len(),
            r is Err ==> *final(self) == *old(self) && r == Err::<(), TodoError>(
                TodoError::OutOfRange,
            ),
            r is Ok ==> {
                &&& final(self)@.len() == old(self)@.len() - 1
                &&& forall|j: int| 0 <= j < index ==> final(self)@[j] == old(self)@[j]
                &&& forall|j: int|
                    index <= j < final(self)@.len() ==> final(self)@[j] == old(self)@[j + 1]
            },
    {
        if index < self.items.len() {
            self.items.remove(index);
            proof {
                assert(self@ =~= old(self)@.remove(index as int));
            }
            Ok(())
        } else {
            Err(TodoError::OutOfRange)
        }
    }

    /// Drops every done item, preserving the relative order of the rest;
    /// succeeds on any list, including an empty one.
    pub fn clean(&mut self)
        ensures
            final(self)@ == cleaned(old(self)@),
    {
        let mut kept: Vec<TodoItem> = Vec::new();
        let n = self.items.len();
        let mut i: usize = 0;
        while i < n
            invariant
                0 <= i <= n,
                n == self.items@.len(),
                self.items@ == old(self).items@,
                kept@.map_values(|it: TodoItem| it@) == cleaned(old(self)@.take(i as int)),
            decreases n - i,
        {
            proof {
                reveal(Seq::filter);
                let prefix = old(self)@.take(i as int);
                let next = old(self)@.take(i + 1);
                assert(next.drop_last() =~= prefix);
                assert(next.last() == old(self)@[i as int]);
            }
            if !self.items[i].status {
                let it = TodoItem {
                    description: self.items[i].description.clone(),
                    status: self.items[i].status,
                };
                kept.push(it);
                proof {
                    assert(kept@.map_values(|it: TodoItem| it@) =~= cleaned(
                        old(self)@.take(i + 1),
                    ));
                }
            } else {
                proof {
                    assert(kept@.map_values(|it: TodoItem| it@) =~= cleaned(
                        old(self)@.take(i + 1),
                    ));
                }
            }
            i = i + 1;
        }
        proof {
            assert(old(self)@.take(n as int) =~= old(self)@);
        }
        self.items = kept;
    }

    /// The rows of the rendered table: position, done flag and description
    /// of each item, in list order.
    pub fn display_rows(&self) -> (r: Vec<DisplayRow>)
        ensures
            r@.len() == self@.len(),
            forall|j: int|
                0 <= j < self@.len() ==> {
                    &&& (#[trigger] r@[j]).index == j
                    &&& r@[j].done == self@[j].status
                    &&& r@[j].description@ == self@[j].description
                },
    {
        let mut rows: Vec<DisplayRow> = Vec::new();
        let n = self.items.len();
        let mut i: usize = 0;
        while i < n
            invariant
                0 <= i <= n,
                n == self.items@.len(),
                rows@.len() == i,
                forall|j: int|
                    0 <= j < i ==> {
                        &&& (#[trigger] rows@[j]).index == j
                        &&& rows@[j].done == self@[j].status
                        &&& rows@[j].description@ == self@[j].description
                    },
            decreases n - i,
        {
            rows.push(DisplayRow {
                index: i,
                done: self.items[i].status,
                description: self.items[i].description.clone(),
            });
            i = i + 1;
        }
        rows
    }
}

/// Adding an item to a list with no done entries, finishing it at its new
/// (last) index, and cleaning yields the original list back: the finished
/// item is removed and all prior items are unchanged, in order.
///
/// The restriction to lists with no done entries is necessary: `clean` also
/// drops any item that was already done before the `add`.
pub proof fn lemma_add_finish_clean(items: Seq<ItemModel>, desc: Seq<char>)
    requires
        forall|j: int| 0 <= j < items.len() ==> !(#[trigger] items[j]).status,
    ensures
        ({
            let added = items.push(ItemModel { description: desc, status: false });
            let finished = added.update(
                items.len() as int,
                ItemModel { description: desc, status: true },
            );
            cleaned(finished) == items
        }),
{
    let added = items.push(ItemModel { description: desc, status: false });
    let finished = added.update(
        items.len() as int,
        ItemModel { description: desc, status: true },
    );
    assert(finished =~= items.push(ItemModel { description: desc, status: true }));
    reveal(Seq::filter);
    assert(finished.drop_last() =~= items);
    lemma_cleaned_all_kept(items);
}

/// A list in which no item is done is unchanged by cleaning.
pub proof fn lemma_cleaned_all_kept(items: Seq<ItemModel>)
    requires
        forall|j: int| 0 <= j < items.len() ==> !(#[trigger] items[j]).status,
    ensures
        cleaned(items) == items,
    decreases items.len(),
{
    reveal(Seq::filter);
    if items.len() == 0 {
        assert(cleaned(items) =~= items);
    } else {
        lemma_cleaned_all_kept(items.drop_last());
        assert(cleaned(items) =~= items);
    }
}

} // verus!
