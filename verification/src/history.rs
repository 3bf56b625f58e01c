//! Recently seen items, oldest first, without repeats and up to a capacity.
use vstd::prelude::*;

use ritelinked::LinkedHashSet;

verus! {

#[verifier::external_type_specification]
#[verifier::external_body]
#[verifier::reject_recursive_types(T)]
#[verifier::reject_recursive_types(S)]
pub struct ExLinkedHashSet<T, S>(ritelinked::LinkedHashSet<T, S>);

#[verifier::external_type_specification]
#[verifier::external_body]
pub struct ExDefaultHashBuilder(ritelinked::DefaultHashBuilder);

/// The items of a linked hash set, in the order of its list.
pub uninterp spec fn linked_set_items(set: LinkedHashSet<String>) -> Seq<Seq<char>>;

/// Whether an item is not `value`.
pub open spec fn differs(value: Seq<char>) -> spec_fn(Seq<char>) -> bool {
    |x: Seq<char>| x != value
}

/// The items without `value`.
pub open spec fn without(items: Seq<Seq<char>>, value: Seq<char>) -> Seq<Seq<char>> {
    items.filter(differs(value))
}

/// Calls `LinkedHashSet::default`: an empty set.
#[verifier::external_body]
fn linked_set_new() -> (r: LinkedHashSet<String>)
    ensures
        linked_set_items(r) == Seq::<Seq<char>>::empty(),
{
    LinkedHashSet::default()
}

/// Calls `LinkedHashSet::insert`, which (as its documentation says) puts a
/// new value at the back of the list, and moves a value already there to
/// the back.
#[verifier::external_body]
fn linked_set_insert(set: &mut LinkedHashSet<String>, value: String)
    ensures
        linked_set_items(*final(set)) == without(linked_set_items(*old(set)), value@).push(value@),
{
    set.insert(value);
}

/// Calls `LinkedHashSet::len`: the number of items.
#[verifier::external_body]
fn linked_set_len(set: &LinkedHashSet<String>) -> (r: usize)
    ensures
        r == linked_set_items(*set).len(),
{
    set.len()
}

/// Calls `LinkedHashSet::pop_front`: takes out the item at the front.
#[verifier::external_body]
fn linked_set_pop_front(set: &mut LinkedHashSet<String>) -> (r: Option<String>)
    ensures
        linked_set_items(*old(set)).len() == 0 ==> r is None && linked_set_items(*final(set))
            == linked_set_items(*old(set)),
        linked_set_items(*old(set)).len() > 0 ==> (r matches Some(v) && v@ == linked_set_items(
            *old(set),
        )[0] && linked_set_items(*final(set)) == linked_set_items(*old(set)).drop_first()),
{
    set.pop_front()
}

/// Calls `LinkedHashSet::iter` and collects copies of the items, in order.
#[verifier::external_body]
fn linked_set_to_vec(set: &LinkedHashSet<String>) -> (r: Vec<String>)
    ensures
        r@.map_values(|s: String| s@) == linked_set_items(*set),
{
    set.iter().cloned().collect()
}

/// How a history is browsed.
#[derive(Clone, Copy, Debug, PartialEq, Eq, Structural)]
pub enum HistoryScrollDirection {
    Older,
    Newer,
}

/// Distinct recent items, oldest first, at most `max_entries` of them, and a
/// version that changes with every change.
pub struct History {
    max_entries: usize,
    entries: LinkedHashSet<String>,
    version: u64,
}

pub struct HistoryView {
    pub max_entries: nat,
    pub entries: Seq<Seq<char>>,
    pub version: u64,
}

impl View for History {
    type V = HistoryView;

    closed spec fn view(&self) -> HistoryView {
        HistoryView {
            max_entries: self.max_entries as nat,
            entries: linked_set_items(self.entries),
            version: self.version,
        }
    }
}

/// The items after adding `values` in order: each one moves to the back.
pub open spec fn inserted(items: Seq<Seq<char>>, values: Seq<Seq<char>>) -> Seq<Seq<char>>
    decreases values.len(),
{
    if values.len() == 0 {
        items
    } else {
        let before = inserted(items, values.drop_last());
        without(before, values.last()).push(values.last())
    }
}

/// The newest `max` items.
pub open spec fn newest(items: Seq<Seq<char>>, max: nat) -> Seq<Seq<char>> {
    if items.len() > max {
        items.subrange(items.len() - max, items.len() as int)
    } else {
        items
    }
}

/// The version after a change: one more, wrapping around.
pub open spec fn next_version(version: u64) -> u64 {
    if version == u64::MAX {
        0
    } else {
        (version + 1) as u64
    }
}

/// Taking out a value keeps the others distinct, and leaves no copy of it.
pub proof fn lemma_without_distinct(items: Seq<Seq<char>>, value: Seq<char>)
    requires
        items.no_duplicates(),
    ensures
        without(items, value).no_duplicates(),
        !without(items, value).contains(value),
        forall|x: Seq<char>| #[trigger] without(items, value).contains(x) <==> items.contains(x) && x != value,
    decreases items.len(),
{
    broadcast use vstd::seq_lib::group_filter_ensures, vstd::seq_lib::group_seq_properties;

    let pred = differs(value);
    if items.len() > 0 {
        let init = items.drop_last();
        let last = items.last();
        assert(items =~= init.push(last));
        assert forall|i: int, j: int| 0 <= i < j < init.len() implies init[i] != init[j] by {
            assert(init[i] == items[i] && init[j] == items[j]);
        }
        lemma_without_distinct(init, value);
        init.lemma_filter_push(last, pred);
        if last != value {
            assert(!init.contains(last)) by {
                if init.contains(last) {
                    let k = choose|k: int| 0 <= k < init.len() && init[k] == last;
                    assert(items[k] == items[items.len() - 1]);
                }
            }
            let w = without(init, value);
            assert(without(items, value) == w.push(last));
            assert forall|i: int, j: int| 0 <= i < j < w.push(last).len() implies w.push(last)[i] != w.push(last)[j] by {
                if j == w.len() {
                    assert(w.contains(w[i]));
                }
            }
        } else {
            assert(without(items, value) == without(init, value));
        }
        assert forall|x: Seq<char>| #[trigger] without(items, value).contains(x) <==> items.contains(x) && x != value by {
            if items.contains(x) && x != value {
                let k = choose|k: int| 0 <= k < items.len() && items[k] == x;
                if k < init.len() {
                    assert(init[k] == x);
                }
            }
            if init.contains(x) {
                let k = choose|k: int| 0 <= k < init.len() && init[k] == x;
                assert(items[k] == x);
            }
        }
    } else {
        assert(without(items, value) =~= Seq::<Seq<char>>::empty());
    }
}

/// A history keeps distinct items, never more than its capacity, and the
/// item added last is the newest (when it keeps any).
pub proof fn lemma_history_insert(items: Seq<Seq<char>>, values: Seq<Seq<char>>, max: nat)
    requires
        items.no_duplicates(),
    ensures
        newest(inserted(items, values), max).no_duplicates(),
        newest(inserted(items, values), max).len() <= max || newest(inserted(items, values), max)
            == inserted(items, values) && inserted(items, values).len() <= max,
        values.len() > 0 && max > 0 ==> newest(inserted(items, values), max).last() == values.last(),
{
    lemma_inserted_distinct(items, values);
    let all = inserted(items, values);
    if all.len() > max {
        let kept = all.subrange(all.len() - max, all.len() as int);
        assert forall|i: int, j: int| 0 <= i < j < kept.len() implies kept[i] != kept[j] by {
            assert(kept[i] == all[all.len() - max + i] && kept[j] == all[all.len() - max + j]);
        }
    }
}

proof fn lemma_inserted_distinct(items: Seq<Seq<char>>, values: Seq<Seq<char>>)
    requires
        items.no_duplicates(),
    ensures
        inserted(items, values).no_duplicates(),
        values.len() > 0 ==> inserted(items, values).last() == values.last(),
    decreases values.len(),
{
    if values.len() > 0 {
        lemma_inserted_distinct(items, values.drop_last());
        let before = inserted(items, values.drop_last());
        lemma_without_distinct(before, values.last());
        let w = without(before, values.last());
        assert forall|i: int, j: int| 0 <= i < j < w.push(values.last()).len() implies w.push(values.last())[i] != w.push(values.last())[j] by {
            if j == w.len() {
                assert(w.contains(w[i]));
            }
        }
    }
}

impl History {
    /// The items are distinct, and no more than the capacity.
    #[verifier::type_invariant]
    spec fn inv(self) -> bool {
        &&& linked_set_items(self.entries).no_duplicates()
        &&& linked_set_items(self.entries).len() <= self.max_entries
    }

    /// The items are distinct and within the capacity (this call makes that
    /// known).
    pub fn note_bounds(&self)
        ensures
            self@.entries.no_duplicates(),
            self@.entries.len() <= self@.max_entries,
    {
        proof {
            use_type_invariant(self);
        }
    }

    /// An empty history keeping at most `capacity` items.
    pub fn with_capacity(capacity: usize) -> (r: History)
        ensures
            r@.max_entries == capacity,
            r@.entries == Seq::<Seq<char>>::empty(),
            r@.version == 0,
    {
        History { max_entries: capacity, entries: linked_set_new(), version: 0 }
    }

    /// An empty history with a version, keeping at most `capacity` items.
    pub fn with_version(capacity: usize, version: u64) -> (r: History)
        ensures
            r@.max_entries == capacity,
            r@.entries == Seq::<Seq<char>>::empty(),
            r@.version == version,
    {
        History { max_entries: capacity, entries: linked_set_new(), version }
    }

    /// Adds one item (see `insert_many`).
    pub fn insert(&mut self, entry: String)
        ensures
            final(self)@.entries == newest(inserted(old(self)@.entries, seq![entry@]), old(self)@.max_entries),
            final(self)@.max_entries == old(self)@.max_entries,
            final(self)@.version == next_version(old(self)@.version),
    {
        let mut entries: Vec<String> = Vec::new();
        entries.push(entry);
        proof {
            assert(entries@.map_values(|s: String| s@) =~= seq![entries@[0]@]);
        }
        self.insert_many(entries);
    }

    /// Adds items in order (an item already there moves to the newest end),
    /// then drops the oldest beyond the capacity; the version moves on.
    pub fn insert_many(&mut self, entries: Vec<String>)
        ensures
            final(self)@.entries == newest(
                inserted(old(self)@.entries, entries@.map_values(|s: String| s@)),
                old(self)@.max_entries,
            ),
            final(self)@.max_entries == old(self)@.max_entries,
            final(self)@.version == next_version(old(self)@.version),
    {
        proof {
            use_type_invariant(&*self);
        }
        let ghost values = entries@.map_values(|s: String| s@);
        let ghost start = linked_set_items(self.entries);
        let mut set = linked_set_new();
        std::mem::swap(&mut set, &mut self.entries);
        let entries = entries;
        let mut i: usize = 0;
        let n = entries.len();
        while i < n
            invariant
                n == entries@.len(),
                values == entries@.map_values(|s: String| s@),
                i <= n,
                linked_set_items(set) == inserted(start, values.subrange(0, i as int)),
            decreases n - i,
        {
            let value = entries[i].clone();
            proof {
                let next = values.subrange(0, i + 1);
                assert(next.drop_last() =~= values.subrange(0, i as int));
                assert(next.last() == value@);
            }
            linked_set_insert(&mut set, value);
            i = i + 1;
        }
        proof {
            assert(values.subrange(0, i as int) =~= values);
        }
        let ghost all = linked_set_items(set);
        let len = linked_set_len(&set);
        if len > self.max_entries {
            let overage = len - self.max_entries;
            let mut k: usize = 0;
            while k < overage
                invariant
                    k <= overage,
                    overage == len - self.max_entries,
                    len == all.len(),
                    linked_set_items(set) == all.subrange(k as int, all.len() as int),
                decreases overage - k,
            {
                linked_set_pop_front(&mut set);
                proof {
                    assert(all.subrange(k as int, all.len() as int).drop_first() =~= all.subrange(k + 1, all.len() as int));
                }
                k = k + 1;
            }
        } else {
            proof {
                assert(all.subrange(0, all.len() as int) =~= all);
            }
        }
        proof {
            lemma_history_insert(start, values, self.max_entries as nat);
            if len > self.max_entries {
                assert(linked_set_items(set) == newest(all, self.max_entries as nat));
            }
        }
        self.entries = set;
        self.version = self.version.wrapping_add(1);
    }

    /// The items, oldest first.
    pub fn to_vec(&self) -> (r: Vec<String>)
        ensures
            r@.map_values(|s: String| s@) == self@.entries,
    {
        linked_set_to_vec(&self.entries)
    }

    /// How many items there are.
    pub fn len(&self) -> (r: usize)
        ensures
            r == self@.entries.len(),
    {
        linked_set_len(&self.entries)
    }

    /// The version.
    pub fn version(&self) -> (r: u64)
        ensures
            r == self@.version,
    {
        self.version
    }
}


/// Where a client is in a history: a page of `limit` items from `offset`, of
/// the history at `version`.
pub struct HistoryCursor {
    pub limit: usize,
    pub offset: usize,
    pub version: u64,
    pub initial_content: Option<String>,
}

/// A page of a history, and the cursor for the next page when there is one.
pub struct HistoryPage {
    pub entries: Vec<String>,
    pub cursor: Option<HistoryCursor>,
}

/// The cursor a request goes by: the given one, if it was made for this
/// version of the history.
pub open spec fn usable_cursor(provided: Option<HistoryCursor>, version: u64) -> Option<HistoryCursor> {
    match provided {
        Some(c) => if c.version == version {
            Some(c)
        } else {
            None
        },
        None => None,
    }
}

/// The page limit a request goes by.
pub open spec fn page_limit(provided: Option<HistoryCursor>, version: u64, default_limit: usize) -> usize {
    match usable_cursor(provided, version) {
        Some(c) => c.limit,
        None => default_limit,
    }
}

/// The page offset a request goes by.
pub open spec fn page_offset(provided: Option<HistoryCursor>, version: u64) -> usize {
    match usable_cursor(provided, version) {
        Some(c) => c.offset,
        None => 0,
    }
}

/// The items from `offset` on.
pub open spec fn items_from(items: Seq<Seq<char>>, offset: nat) -> Seq<Seq<char>> {
    if offset < items.len() {
        items.subrange(offset as int, items.len() as int)
    } else {
        Seq::empty()
    }
}

/// Gives a page of the history, oldest first: `limit` items from `offset`
/// (those of the given cursor when it was made for this version, else the
/// default limit from the start), and a cursor for the next page when more
/// items follow.
pub fn history_page(history: &History, default_limit: usize, provided: Option<HistoryCursor>) -> (r: HistoryPage)
    requires
        page_limit(provided, history@.version, default_limit) < usize::MAX,
        page_offset(provided, history@.version) + page_limit(provided, history@.version, default_limit)
            <= usize::MAX,
    ensures
        ({
            let limit = page_limit(provided, history@.version, default_limit);
            let offset = page_offset(provided, history@.version);
            let rest = items_from(history@.entries, offset as nat);
            if rest.len() > limit {
                &&& r.entries@.map_values(|s: String| s@) == rest.subrange(0, limit as int)
                &&& r.cursor matches Some(c) && c.offset == offset + limit && c.limit == limit && c.version
                    == history@.version && c.initial_content is None
            } else {
                &&& r.entries@.map_values(|s: String| s@) == rest
                &&& r.cursor is None
            }
        }),
{
    let version = history.version();
    let request = match provided {
        Some(c) => if c.version == version {
            Some(c)
        } else {
            None
        },
        None => None,
    };
    let (limit, offset) = match &request {
        Some(c) => (c.limit, c.offset),
        None => (default_limit, 0),
    };
    let all = history.to_vec();
    let ghost items = history@.entries;
    let ghost rest = items_from(items, offset as nat);
    let mut entries: Vec<String> = Vec::new();
    let mut i = offset;
    while i < all.len() && entries.len() < limit
        invariant
            all@.map_values(|s: String| s@) == items,
            offset <= i,
            i <= offset || i <= all@.len(),
            entries@.len() == i - offset,
            entries@.len() <= limit,
            offset < all@.len() ==> i <= all@.len(),
            entries@.map_values(|s: String| s@) == rest.subrange(0, entries@.len() as int),
            rest == items_from(items, offset as nat),
            entries@.len() > 0 ==> offset < items.len(),
        decreases all@.len() - i,
    {
        let ghost before = entries@;
        entries.push(all[i].clone());
        proof {
            assert(rest[(i - offset) as int] == items[i as int]);
            assert(entries@.map_values(|s: String| s@) =~= rest.subrange(0, entries@.len() as int));
        }
        i = i + 1;
    }
    let more = i < all.len();
    proof {
        if offset >= items.len() {
            assert(rest.len() == 0);
        }
        if !more && entries@.len() < limit {
            assert(entries@.len() == rest.len());
        }
        if !more {
            assert(rest.subrange(0, entries@.len() as int) =~= rest);
        }
    }
    if more {
        HistoryPage {
            entries,
            cursor: Some(HistoryCursor { offset: offset + limit, limit, version, initial_content: None }),
        }
    } else {
        HistoryPage { entries, cursor: None }
    }
}

/// Pages tile the history: a page that has a next page, followed by
/// everything from the offset of its cursor, is everything from the page's
/// own offset; nothing is skipped or given twice.
pub proof fn lemma_pages_tile(items: Seq<Seq<char>>, offset: nat, limit: nat)
    requires
        items_from(items, offset).len() > limit,
    ensures
        items_from(items, offset).subrange(0, limit as int) + items_from(items, offset + limit)
            == items_from(items, offset),
{
    let rest = items_from(items, offset);
    let next = items_from(items, offset + limit);
    assert(offset < items.len());
    assert(offset + limit < items.len());
    assert(rest.subrange(0, limit as int) + next =~= rest);
}

/// Where browsing the history goes next: the newest item when starting
/// towards older ones, one older or one newer than the cursor otherwise;
/// nothing when starting towards newer ones or before the oldest.
pub open spec fn scroll_offset(len: nat, direction: HistoryScrollDirection, cursor: Option<HistoryCursor>) -> Option<int> {
    match (cursor, direction) {
        (None, HistoryScrollDirection::Older) => if len > 0 {
            Some(len - 1)
        } else {
            None
        },
        (Some(c), HistoryScrollDirection::Older) => if c.offset > 0 {
            Some(c.offset - 1)
        } else {
            None
        },
        (None, HistoryScrollDirection::Newer) => None,
        (Some(c), HistoryScrollDirection::Newer) => Some(c.offset + 1),
    }
}

/// Going one item older and then one newer comes back to the item where
/// the cursor was, for any cursor that has an older item.
pub proof fn lemma_scroll_back_and_forth(len: nat, cursor: HistoryCursor, older: HistoryCursor)
    requires
        0 < cursor.offset < len,
        older.offset == cursor.offset - 1,
    ensures
        scroll_offset(len, HistoryScrollDirection::Older, Some(cursor)) == Some(older.offset as int),
        scroll_offset(len, HistoryScrollDirection::Newer, Some(older)) == Some(cursor.offset as int),
{
}

/// What browsing does, case by case: starting towards older items gives the
/// newest; from a cursor, older gives the item just before it and newer the
/// item just after it, when there is one; otherwise nothing is found.
pub proof fn lemma_scroll_steps_by_one(len: nat, direction: HistoryScrollDirection, cursor: Option<HistoryCursor>)
    ensures
        scroll_offset(len, direction, cursor) == match (cursor, direction) {
            (None, HistoryScrollDirection::Older) => if len > 0 {
                Some(len - 1)
            } else {
                None::<int>
            },
            (None, HistoryScrollDirection::Newer) => None::<int>,
            (Some(c), HistoryScrollDirection::Newer) => Some(c.offset + 1),
            (Some(c), HistoryScrollDirection::Older) => if c.offset > 0 {
                Some(c.offset - 1)
            } else {
                None::<int>
            },
        },
        cursor matches Some(c) ==> match scroll_offset(len, direction, cursor) {
            Some(o) => o == c.offset + 1 || o + 1 == c.offset,
            None => true,
        },
{
}


/// Browses the history one item at a time: gives the item where it goes
/// next with a cursor there, or, when there is no such item, the content
/// being edited and no cursor.
pub fn scroll_history(history: &History, direction: HistoryScrollDirection, content: String, cursor: Option<HistoryCursor>) -> (r: (String, Option<HistoryCursor>))
    requires
        cursor matches Some(c) ==> c.offset < usize::MAX,
    ensures
        ({
            let items = history@.entries;
            match scroll_offset(items.len(), direction, cursor) {
                Some(o) => if o < items.len() {
                    &&& r.0@ == items[o]
                    &&& r.1 matches Some(c) && c.offset == o && c.limit == 1 && c.version == 0 && c.initial_content is None
                } else {
                    r.0@ == content@ && r.1 is None
                },
                None => r.0@ == content@ && r.1 is None,
            }
        }),
        match (cursor, direction) {
            (Some(c), HistoryScrollDirection::Newer) => if c.offset + 1 < history@.entries.len() {
                r.0@ == history@.entries[c.offset + 1] && (r.1 matches Some(n) && n.offset == c.offset + 1)
            } else {
                r.0@ == content@ && r.1 is None
            },
            (Some(c), HistoryScrollDirection::Older) => if 0 < c.offset <= history@.entries.len() {
                r.0@ == history@.entries[c.offset - 1] && (r.1 matches Some(n) && n.offset + 1 == c.offset)
            } else {
                r.0@ == content@ && r.1 is None
            },
            (None, HistoryScrollDirection::Older) => if history@.entries.len() > 0 {
                r.0@ == history@.entries.last() && (r.1 matches Some(n) && n.offset + 1
                    == history@.entries.len())
            } else {
                r.0@ == content@ && r.1 is None
            },
            (None, HistoryScrollDirection::Newer) => r.0@ == content@ && r.1 is None,
        },
{
    let all = history.to_vec();
    let ghost items = history@.entries;
    let next: Option<usize> = match (&cursor, direction) {
        (None, HistoryScrollDirection::Older) => if all.len() > 0 {
            Some(all.len() - 1)
        } else {
            None
        },
        (Some(c), HistoryScrollDirection::Older) => if c.offset > 0 {
            Some(c.offset - 1)
        } else {
            None
        },
        (None, HistoryScrollDirection::Newer) => None,
        (Some(c), HistoryScrollDirection::Newer) => Some(c.offset + 1),
    };
    match next {
        Some(o) => if o < all.len() {
            assert(all@.map_values(|s: String| s@)[o as int] == all@[o as int]@);
            (all[o].clone(), Some(HistoryCursor { limit: 1, offset: o, version: 0, initial_content: None }))
        } else {
            (content, None)
        },
        None => (content, None),
    }
}

} // verus!
