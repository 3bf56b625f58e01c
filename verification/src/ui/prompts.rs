//! The prompt lines shown under the output, in groups.
use vstd::prelude::*;

use crate::notifications::{first_position, lemma_first_position, lemma_first_position_at};

use crate::processing::ansi::Ansi;
use crate::Id;

verus! {

/// The prompt lines of one group, by position; a position may be unset.
pub struct PromptsState {
    values: Vec<Option<Ansi>>,
}

/// A prompt line's text, if set.
pub open spec fn prompt_view(p: Option<Ansi>) -> Option<Seq<u8>> {
    match p {
        Some(a) => Some(a@),
        None => None,
    }
}

impl View for PromptsState {
    type V = Seq<Option<Seq<u8>>>;

    closed spec fn view(&self) -> Seq<Option<Seq<u8>>> {
        self.values@.map_values(|p: Option<Ansi>| prompt_view(p))
    }
}

/// The prompts with position `index` set to `content`, unset positions added
/// before it as needed.
pub open spec fn with_prompt(values: Seq<Option<Seq<u8>>>, index: nat, content: Seq<u8>) -> Seq<Option<Seq<u8>>> {
    let padded = if values.len() <= index {
        values + Seq::new((index + 1 - values.len()) as nat, |i: int| None)
    } else {
        values
    };
    padded.update(index as int, Some(content))
}

impl PromptsState {
    /// No prompts.
    pub fn new() -> (r: PromptsState)
        ensures
            r@ == Seq::<Option<Seq<u8>>>::empty(),
    {
        let r = PromptsState { values: Vec::new() };
        assert(r@ =~= Seq::<Option<Seq<u8>>>::empty());
        r
    }

    /// Unsets every prompt.
    pub fn clear(&mut self)
        ensures
            final(self)@ == Seq::<Option<Seq<u8>>>::empty(),
    {
        self.values.clear();
        assert(self@ =~= Seq::<Option<Seq<u8>>>::empty());
    }

    pub fn is_empty(&self) -> (r: bool)
        ensures
            r == (self@.len() == 0),
    {
        self.values.len() == 0
    }

    /// How many positions there are (set or not).
    pub fn len(&self) -> (r: usize)
        ensures
            r == self@.len(),
    {
        self.values.len()
    }

    /// The prompt at a position, if set.
    pub fn get(&self, index: usize) -> (r: Option<&Ansi>)
        ensures
            match r {
                Some(a) => index < self@.len() && self@[index as int] == Some(a@),
                None => index >= self@.len() || self@[index as int] is None,
            },
    {
        if index < self.values.len() {
            match &self.values[index] {
                Some(a) => Some(a),
                None => None,
            }
        } else {
            None
        }
    }

    /// Every position, in order.
    pub fn values(&self) -> (r: &Vec<Option<Ansi>>)
        ensures
            r@.map_values(|p: Option<Ansi>| prompt_view(p)) == self@,
    {
        &self.values
    }

    /// Sets the prompt at `index`, adding unset positions before it.
    pub fn set_index(&mut self, index: usize, content: Ansi)
        requires
            index < usize::MAX,
        ensures
            final(self)@ == with_prompt(old(self)@, index as nat, content@),
    {
        let ghost start = self@;
        while self.values.len() <= index
            invariant
                start.len() <= self.values@.len(),
                start.len() > index ==> self.values@.len() == start.len(),
                start.len() <= index ==> self.values@.len() <= index + 1,
                self@ == start + unset((self.values@.len() - start.len()) as nat),
                index < usize::MAX,
            decreases index + 1 - self.values@.len(),
        {
            let ghost before = self@;
            let ghost n = (self.values@.len() - start.len()) as nat;
            self.values.push(None);
            proof {
                assert(self@ =~= before.push(None));
                assert(unset(n + 1) =~= unset(n).push(None));
                assert(self@ =~= start + unset((self.values@.len() - start.len()) as nat));
            }
        }
        let ghost content_view = content@;
        self.values.set(index, Some(content));
        proof {
            if start.len() <= index {
                assert(self.values@.len() == index + 1);
            } else {
                assert(self.values@.len() == start.len());
                assert(unset(0) =~= Seq::<Option<Seq<u8>>>::empty());
            }
            let padded = if start.len() <= index {
                start + Seq::new((index + 1 - start.len()) as nat, |i: int| None)
            } else {
                start
            };
            assert(self@ =~= padded.update(index as int, Some(content_view)));
        }
    }
}

/// `n` unset positions.
pub open spec fn unset(n: nat) -> Seq<Option<Seq<u8>>> {
    Seq::new(n, |i: int| None)
}

/// The groups of prompts that are not shown, by group.
pub struct PromptGroups {
    groups: Vec<(Id, PromptsState)>,
}

/// The prompts of a group, as kept.
pub open spec fn group_entries_view(groups: Seq<(Id, PromptsState)>) -> Seq<(Id, Seq<Option<Seq<u8>>>)> {
    groups.map_values(|g: (Id, PromptsState)| (g.0, g.1@))
}

/// The prompts of group `id` among `entries`, if it is there.
pub open spec fn group_in(entries: Seq<(Id, Seq<Option<Seq<u8>>>)>, id: Id) -> Option<Seq<Option<Seq<u8>>>> {
    match first_position(entries, id) {
        Some(i) => Some(entries[i].1),
        None => None,
    }
}

impl View for PromptGroups {
    type V = Seq<(Id, Seq<Option<Seq<u8>>>)>;

    closed spec fn view(&self) -> Seq<(Id, Seq<Option<Seq<u8>>>)> {
        group_entries_view(self.groups@)
    }
}

/// No group appears twice.
pub open spec fn unique_ids(entries: Seq<(Id, Seq<Option<Seq<u8>>>)>) -> bool {
    forall|i: int, j: int| 0 <= i < j < entries.len() ==> entries[i].0 != entries[j].0
}

/// The entries without the first one of group `id`.
pub open spec fn remove_group(entries: Seq<(Id, Seq<Option<Seq<u8>>>)>, id: Id) -> Seq<(Id, Seq<Option<Seq<u8>>>)> {
    match first_position(entries, id) {
        Some(i) => entries.remove(i),
        None => entries,
    }
}

/// Removing a group keeps the others unique, and leaves none of that group.
pub proof fn lemma_remove_group(entries: Seq<(Id, Seq<Option<Seq<u8>>>)>, id: Id)
    requires
        unique_ids(entries),
    ensures
        unique_ids(remove_group(entries, id)),
        first_position(remove_group(entries, id), id) is None,
        forall|k: Id| k != id ==> group_in(remove_group(entries, id), k) == group_in(entries, k),
{
    lemma_first_position(entries, id);
    let r = remove_group(entries, id);
    match first_position(entries, id) {
        Some(i) => {
            assert forall|a: int, b: int| 0 <= a < b < r.len() implies r[a].0 != r[b].0 by {
                let a0 = if a < i { a } else { a + 1 };
                let b0 = if b < i { b } else { b + 1 };
                assert(r[a] == entries[a0] && r[b] == entries[b0]);
            }
            assert forall|j: int| 0 <= j < r.len() implies #[trigger] r[j].0 != id by {
                let j0 = if j < i { j } else { j + 1 };
                assert(r[j] == entries[j0]);
            }
        },
        None => {},
    }
    lemma_first_position(r, id);
    assert forall|k: Id| k != id implies group_in(r, k) == group_in(entries, k) by {
        lemma_first_position(entries, k);
        lemma_first_position(r, k);
        match first_position(entries, k) {
            Some(p) => {
                match first_position(entries, id) {
                    Some(i) => {
                        let p2 = if p < i { p } else { p - 1 };
                        assert(p != i);
                        assert(r[p2] == entries[p]);
                        assert forall|j: int| 0 <= j < p2 implies #[trigger] r[j].0 != k by {
                            let j0 = if j < i { j } else { j + 1 };
                            assert(r[j] == entries[j0]);
                        }
                        lemma_first_position_at(r, k, p2);
                    },
                    None => {},
                }
            },
            None => {
                match first_position(entries, id) {
                    Some(i) => {
                        assert forall|j: int| 0 <= j < r.len() implies #[trigger] r[j].0 != k by {
                            let j0 = if j < i { j } else { j + 1 };
                            assert(r[j] == entries[j0]);
                        }
                    },
                    None => {},
                }
            },
        }
    }
}

impl PromptGroups {
    #[verifier::type_invariant]
    spec fn inv(self) -> bool {
        unique_ids(self@)
    }

    /// No group appears twice (this call makes that known).
    pub fn note_unique(&self)
        ensures
            unique_ids(self@),
    {
        proof {
            use_type_invariant(self);
        }
    }

    pub fn new() -> (r: PromptGroups)
        ensures
            r@ == Seq::<(Id, Seq<Option<Seq<u8>>>)>::empty(),
    {
        let r = PromptGroups { groups: Vec::new() };
        assert(r@ =~= Seq::<(Id, Seq<Option<Seq<u8>>>)>::empty());
        r
    }

    /// Forgets every group.
    pub fn clear(&mut self)
        ensures
            final(self)@ == Seq::<(Id, Seq<Option<Seq<u8>>>)>::empty(),
    {
        self.groups = Vec::new();
        assert(self@ =~= Seq::<(Id, Seq<Option<Seq<u8>>>)>::empty());
    }

    /// The position of group `id`.
    fn position(&self, id: Id) -> (r: Option<usize>)
        ensures
            match r {
                Some(i) => first_position(self@, id) == Some(i as int) && i < self@.len() && self@.len() == self.groups@.len(),
                None => first_position(self@, id) is None,
            },
    {
        proof {
            lemma_first_position(self@, id);
        }
        let mut i: usize = 0;
        while i < self.groups.len()
            invariant
                i <= self.groups@.len(),
                self@.len() == self.groups@.len(),
                forall|j: int| 0 <= j < i ==> #[trigger] self@[j].0 != id,
                first_position(self@, id) matches Some(p) ==> i <= p && self@[p].0 == id,
                first_position(self@, id) is None ==> forall|j: int| 0 <= j < self@.len() ==> #[trigger] self@[j].0 != id,
            decreases self.groups@.len() - i,
        {
            assert(self@[i as int].0 == self.groups@[i as int].0);
            if self.groups[i].0 == id {
                proof {
                    lemma_first_position(self@, id);
                }
                return Some(i);
            }
            i = i + 1;
        }
        None
    }

    /// Takes group `id` out.
    pub fn remove(&mut self, id: Id) -> (r: Option<PromptsState>)
        ensures
            match first_position(old(self)@, id) {
                Some(i) => r matches Some(g) && g@ == old(self)@[i].1 && final(self)@ == old(self)@.remove(i),
                None => r is None && final(self)@ == old(self)@,
            },
    {
        proof {
            use_type_invariant(&*self);
        }
        match self.position(id) {
            Some(i) => {
                let mut groups: Vec<(Id, PromptsState)> = Vec::new();
                std::mem::swap(&mut groups, &mut self.groups);
                let (_, group) = groups.remove(i);
                assert(group_entries_view(groups@) =~= old(self)@.remove(i as int));
                proof {
                    lemma_remove_group(old(self)@, id);
                }
                self.groups = groups;
                Some(group)
            },
            None => None,
        }
    }

    /// Puts `group` in as group `id`, in place of any earlier one.
    pub fn insert(&mut self, id: Id, group: PromptsState)
        ensures
            final(self)@ == (match first_position(old(self)@, id) {
                Some(i) => old(self)@.remove(i),
                None => old(self)@,
            }).push((id, group@)),
    {
        let ghost g = group@;
        proof {
            use_type_invariant(&*self);
        }
        self.remove(id);
        proof {
            use_type_invariant(&*self);
            lemma_remove_group(old(self)@, id);
        }
        let ghost mid = self@;
        let mut groups: Vec<(Id, PromptsState)> = Vec::new();
        std::mem::swap(&mut groups, &mut self.groups);
        groups.push((id, group));
        assert(group_entries_view(groups@) =~= mid.push((id, g)));
        proof {
            lemma_first_position(mid, id);
            assert forall|j: int| 0 <= j < mid.len() implies #[trigger] mid[j].0 != id by {}
        }
        self.groups = groups;
    }

    /// Sets a prompt of group `id`, which is added (empty) if missing.
    pub fn set_in_group(&mut self, id: Id, index: usize, content: Ansi)
        requires
            index < usize::MAX,
        ensures
            match first_position(old(self)@, id) {
                Some(i) => final(self)@ == old(self)@.update(i, (id, with_prompt(old(self)@[i].1, index as nat, content@))),
                None => final(self)@ == old(self)@.push((id, with_prompt(Seq::empty(), index as nat, content@))),
            },
    {
        let ghost c = content@;
        proof {
            use_type_invariant(&*self);
            lemma_first_position(old(self)@, id);
        }
        match self.position(id) {
            Some(i) => {
                let mut groups: Vec<(Id, PromptsState)> = Vec::new();
                std::mem::swap(&mut groups, &mut self.groups);
                let (gid, mut group) = groups.remove(i);
                group.set_index(index, content);
                let ghost g = group@;
                groups.insert(i, (gid, group));
                assert(group_entries_view(groups@) =~= old(self)@.update(i as int, (id, g)));
                self.groups = groups;
            },
            None => {
                let mut group = PromptsState::new();
                group.set_index(index, content);
                let ghost g = group@;
                let mut groups: Vec<(Id, PromptsState)> = Vec::new();
                std::mem::swap(&mut groups, &mut self.groups);
                groups.push((id, group));
                assert(group_entries_view(groups@) =~= old(self)@.push((id, g)));
                self.groups = groups;
            },
        }
    }
}

} // verus!

verus! {

/// After setting prompt `index` it holds the content, there are at least
/// `index + 1` positions, other positions keep their prompts, and positions
/// added before it are unset.
pub proof fn lemma_set_prompt(values: Seq<Option<Seq<u8>>>, index: nat, content: Seq<u8>)
    ensures
        with_prompt(values, index, content)[index as int] == Some(content),
        with_prompt(values, index, content).len() == if values.len() > index {
            values.len()
        } else {
            index + 1
        },
        forall|i: int|
            0 <= i < with_prompt(values, index, content).len() && i != index ==> #[trigger] with_prompt(
                values,
                index,
                content,
            )[i] == if i < values.len() {
                values[i]
            } else {
                None
            },
{
}

} // verus!
