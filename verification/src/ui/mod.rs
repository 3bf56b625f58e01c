//! What a connection shows besides its output: the prompt groups.
pub mod prompts;
pub mod terminal;

use vstd::prelude::*;

use self::prompts::{
    group_in, lemma_remove_group, remove_group, unique_ids, with_prompt, PromptGroups, PromptsState,
};
use crate::notifications::{
    first_position, lemma_first_position, lemma_first_position_push, lemma_first_position_update, matched_text_of,
    MatchedText,
};
use crate::processing::ansi::Ansi;
use crate::Id;

verus! {

/// The prompts shown, the group they belong to, and the groups kept aside.
pub struct UiView {
    pub prompts: Seq<Option<Seq<u8>>>,
    pub active: Id,
    pub kept: Seq<(Id, Seq<Option<Seq<u8>>>)>,
}

/// The state after making `g` the shown group: its prompts (none if it had
/// none) are shown, and those shown before are kept aside under their group.
pub open spec fn activated(s: UiView, g: Id) -> UiView {
    if s.active == g {
        s
    } else {
        UiView {
            prompts: match group_in(s.kept, g) {
                Some(p) => p,
                None => Seq::empty(),
            },
            active: g,
            kept: remove_group(remove_group(s.kept, g), s.active).push((s.active, s.prompts)),
        }
    }
}

/// Showing another group and then the first one again shows the first
/// group's prompts again, and keeps the other group's prompts aside as they
/// were shown.
pub proof fn lemma_switch_back(s: UiView, g: Id)
    requires
        unique_ids(s.kept),
        s.active != g,
    ensures
        activated(activated(s, g), s.active).prompts == s.prompts,
        activated(activated(s, g), s.active).active == s.active,
        group_in(activated(activated(s, g), s.active).kept, g) == Some(activated(s, g).prompts),
        unique_ids(activated(activated(s, g), s.active).kept),
{
    let a = s.active;
    let p = s.prompts;
    let k0 = remove_group(s.kept, g);
    lemma_remove_group(s.kept, g);
    let r = remove_group(k0, a);
    lemma_remove_group(k0, a);
    lemma_first_position(r, a);
    lemma_first_position(k0, g);
    assert(group_in(r, g) == group_in(k0, g));
    lemma_first_position(r, g);
    lemma_first_position_push(r, a, p);
    let s1 = activated(s, g);
    let kept1 = r.push((a, p));
    assert(s1.kept == kept1);
    assert(unique_ids(kept1)) by {
        assert forall|i: int, j: int| 0 <= i < j < kept1.len() implies kept1[i].0 != kept1[j].0 by {
            if j == r.len() {
                assert(kept1[i] == r[i]);
            }
        }
    }
    assert(group_in(kept1, a) == Some(p));
    let k1 = remove_group(kept1, a);
    lemma_remove_group(kept1, a);
    let r1 = remove_group(k1, g);
    lemma_remove_group(k1, g);
    lemma_first_position_push(r1, g, s1.prompts);
    let kept2 = r1.push((g, s1.prompts));
    assert(unique_ids(kept2)) by {
        lemma_first_position(r1, g);
        assert forall|i: int, j: int| 0 <= i < j < kept2.len() implies kept2[i].0 != kept2[j].0 by {
            if j == r1.len() {
                assert(kept2[i] == r1[i]);
            }
        }
    }
}

/// The active prompt group, shown, and the others, kept aside.
pub struct UiState {
    pub prompts: PromptsState,
    pub active_prompt_group: Id,
    pub inactive_prompt_groups: PromptGroups,
}

impl UiState {
    /// The state as values.
    pub open spec fn view_ui(&self) -> UiView {
        UiView {
            prompts: self.prompts@,
            active: self.active_prompt_group,
            kept: self.inactive_prompt_groups@,
        }
    }

    /// No prompts; group 0 is active.
    pub fn new() -> (r: UiState)
        ensures
            r.prompts@ == Seq::<Option<Seq<u8>>>::empty(),
            r.active_prompt_group == 0,
            r.inactive_prompt_groups@ == Seq::<(Id, Seq<Option<Seq<u8>>>)>::empty(),
    {
        UiState { prompts: PromptsState::new(), active_prompt_group: 0, inactive_prompt_groups: PromptGroups::new() }
    }

    /// Forgets every prompt, shown or kept aside.
    pub fn clear(&mut self)
        ensures
            final(self).prompts@ == Seq::<Option<Seq<u8>>>::empty(),
            final(self).inactive_prompt_groups@ == Seq::<(Id, Seq<Option<Seq<u8>>>)>::empty(),
            final(self).active_prompt_group == old(self).active_prompt_group,
    {
        self.prompts.clear();
        self.inactive_prompt_groups.clear();
    }

    /// Makes `group_id` the shown group: its prompts (none if it had none)
    /// are shown, and those shown so far are kept aside under the group that
    /// was active.  Says whether the active group changed.
    pub fn set_active_prompt_group(&mut self, group_id: Id) -> (changed: bool)
        ensures
            changed == (old(self).active_prompt_group != group_id),
            final(self).view_ui() == activated(old(self).view_ui(), group_id),
    {
        let previous = self.active_prompt_group;
        if previous == group_id {
            return false;
        }
        let mut group = match self.inactive_prompt_groups.remove(group_id) {
            Some(g) => g,
            None => PromptsState::new(),
        };
        std::mem::swap(&mut self.prompts, &mut group);
        self.inactive_prompt_groups.insert(previous, group);
        self.active_prompt_group = group_id;
        true
    }

    /// Sets prompt `index` of group `group_id` (shown or kept aside) and, if
    /// asked, makes that group active.  Gives the prompt's text, plain and as
    /// received, and whether the active group changed.
    pub fn set_prompt_content(&mut self, group_id: Id, index: usize, content: Ansi, set_group_active: bool) -> (r: (MatchedText, bool))
        requires
            index < usize::MAX,
        ensures
            r.0@ == matched_text_of(content@),
            r.1 == (set_group_active && old(self).active_prompt_group != group_id),
            !set_group_active ==> final(self).active_prompt_group == old(self).active_prompt_group,
            !set_group_active && old(self).active_prompt_group == group_id ==> {
                &&& final(self).prompts@ == with_prompt(old(self).prompts@, index as nat, content@)
                &&& final(self).inactive_prompt_groups@ == old(self).inactive_prompt_groups@
            },
            !set_group_active && old(self).active_prompt_group != group_id ==> {
                &&& final(self).prompts@ == old(self).prompts@
                &&& final(self).inactive_prompt_groups@ == match first_position(old(self).inactive_prompt_groups@, group_id) {
                    Some(i) => old(self).inactive_prompt_groups@.update(
                        i,
                        (group_id, with_prompt(old(self).inactive_prompt_groups@[i].1, index as nat, content@)),
                    ),
                    None => old(self).inactive_prompt_groups@.push(
                        (group_id, with_prompt(Seq::empty(), index as nat, content@)),
                    ),
                }
            },
            set_group_active ==> final(self).active_prompt_group == group_id,
            set_group_active ==> final(self).prompts@ == with_prompt(
                match group_in(old(self).inactive_prompt_groups@, group_id) {
                    Some(g) => if old(self).active_prompt_group == group_id {
                        old(self).prompts@
                    } else {
                        g
                    },
                    None => if old(self).active_prompt_group == group_id {
                        old(self).prompts@
                    } else {
                        Seq::empty()
                    },
                },
                index as nat,
                content@,
            ),
    {
        let text = MatchedText::from(content.duplicate());
        let ghost c = content@;
        if self.active_prompt_group == group_id {
            self.prompts.set_index(index, content);
        } else {
            self.inactive_prompt_groups.set_in_group(group_id, index, content);
            proof {
                let kept = old(self).inactive_prompt_groups@;
                match first_position(kept, group_id) {
                    Some(i) => lemma_first_position_update(kept, group_id, i, with_prompt(kept[i].1, index as nat, c)),
                    None => lemma_first_position_push(kept, group_id, with_prompt(Seq::empty(), index as nat, c)),
                }
            }
        }
        let ghost mid = self.inactive_prompt_groups@;
        let changed = if set_group_active {
            self.set_active_prompt_group(group_id)
        } else {
            false
        };
        proof {
            if set_group_active && old(self).active_prompt_group != group_id {
                let kept = old(self).inactive_prompt_groups@;
                lemma_first_position(kept, group_id);
                match first_position(kept, group_id) {
                    Some(i) => {
                        lemma_first_position_update(kept, group_id, i, with_prompt(kept[i].1, index as nat, c));
                        assert(mid == kept.update(i, (group_id, with_prompt(kept[i].1, index as nat, c))));
                        assert(group_in(mid, group_id) == Some(with_prompt(kept[i].1, index as nat, c)));
                        assert(self.prompts@ == with_prompt(kept[i].1, index as nat, c));
                    },
                    None => {
                        assert(group_in(mid, group_id) == Some(with_prompt(Seq::empty(), index as nat, c)));
                    },
                }
            }
        }
        (text, changed)
    }
}

} // verus!
