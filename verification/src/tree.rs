//! Trees: how they are described, and the two states that the database keeps of
//! each.

use vstd::prelude::*;
use crate::model::TreeModel;
use crate::state::TreeState;

verus! {

/// A vault, told apart by its number. What was written under one vault can be read
/// under no other.
#[derive(Clone, Copy, Debug, PartialEq, Eq, Structural)]
pub struct Vault {
    pub number: u64,
}

impl Vault {
    /// The vault with this number.
    pub fn new(number: u64) -> (vault: Vault)
        ensures
            vault.number == number,
    {
        Vault { number }
    }
}

/// Whether two vaults are the same, or neither is given.
pub fn same_vault(a: Option<Vault>, b: Option<Vault>) -> (same: bool)
    ensures
        same == (a == b),
{
    match (a, b) {
        (Some(a), Some(b)) => a.number == b.number,
        (None, None) => true,
        _ => false,
    }
}

/// A description of a tree.
pub struct TreeRoot {
    /// The name of the tree.
    pub name: String,
    /// Whether the tree keeps every change.
    pub versioned: bool,
    /// The vault of the tree. Without one, the vault of the database is used.
    pub vault: Option<Vault>,
}

/// A description of a tree, as a mathematical value.
#[verifier::ext_equal]
pub struct RootModel {
    pub name: Seq<char>,
    pub versioned: bool,
    pub vault: Option<Vault>,
}

impl View for TreeRoot {
    type V = RootModel;

    open spec fn view(&self) -> RootModel {
        RootModel { name: self.name@, versioned: self.versioned, vault: self.vault }
    }
}

impl TreeRoot {
    /// The same tree, under a vault of its own.
    pub fn with_vault(self, vault: Vault) -> (root: TreeRoot)
        ensures
            root@ == (RootModel { vault: Some(vault), ..self@ }),
    {
        TreeRoot { name: self.name, versioned: self.versioned, vault: Some(vault) }
    }
}

/// A kind of tree.
pub trait Root {
    /// Trees of this kind keep every change.
    spec fn keeps_changes() -> bool;

    /// Whether trees of this kind keep every change.
    fn versioned() -> (versioned: bool)
        ensures
            versioned == Self::keeps_changes(),
    ;

    /// Describes the tree of this kind that is named `name`.
    fn tree(name: &str) -> (root: TreeRoot)
        ensures
            root@ == (RootModel {
                name: name@,
                versioned: Self::keeps_changes(),
                vault: None,
            }),
    ;
}

/// Trees that keep every change.
pub struct Versioned;

/// Trees that keep only the current values.
pub struct Unversioned;

impl Root for Versioned {
    open spec fn keeps_changes() -> bool {
        true
    }

    fn versioned() -> (versioned: bool) {
        true
    }

    fn tree(name: &str) -> (root: TreeRoot) {
        TreeRoot { name: name.to_owned(), versioned: true, vault: None }
    }
}

impl Root for Unversioned {
    open spec fn keeps_changes() -> bool {
        false
    }

    fn versioned() -> (versioned: bool) {
        false
    }

    fn tree(name: &str) -> (root: TreeRoot) {
        TreeRoot { name: name.to_owned(), versioned: false, vault: None }
    }
}

/// The two states of a tree: what readers see, and what the next change starts
/// from. They differ while changes have not been published.
pub struct State {
    published: TreeState,
    unpublished: Option<TreeState>,
}

/// The two states of a tree, as mathematical values.
#[verifier::ext_equal]
pub struct StateModel {
    pub published: TreeModel,
    pub pending: TreeModel,
}

impl View for State {
    type V = StateModel;

    closed spec fn view(&self) -> StateModel {
        StateModel {
            published: self.published@,
            pending: match self.unpublished {
                Some(state) => state@,
                None => self.published@,
            },
        }
    }
}

impl State {
    /// Both states are well formed, and of the same kind.
    pub closed spec fn wf(&self) -> bool {
        &&& self.published.wf()
        &&& self.unpublished matches Some(state) ==> state.wf() && state@.versioned
            == self.published@.versioned
    }

    /// Both states are consistent, and of the same kind.
    pub proof fn lemma_wf(&self)
        requires
            self.wf(),
        ensures
            self@.published.consistent(),
            self@.pending.consistent(),
            self@.pending.versioned == self@.published.versioned,
    {
        self.published.lemma_wf();
        if let Some(state) = self.unpublished {
            state.lemma_wf();
        }
    }

    /// Both states are `published`.
    pub fn new(published: TreeState) -> (state: State)
        requires
            published.wf(),
        ensures
            state.wf(),
            state@ == (StateModel { published: published@, pending: published@ }),
    {
        State { published, unpublished: None }
    }

    /// The state that readers see, or within a transaction the one with its changes.
    pub fn root(&self, in_transaction: bool) -> (root: &TreeState)
        requires
            self.wf(),
        ensures
            root.wf(),
            root@ == if in_transaction {
                self@.pending
            } else {
                self@.published
            },
    {
        if in_transaction {
            match &self.unpublished {
                Some(state) => state,
                None => &self.published,
            }
        } else {
            &self.published
        }
    }

    /// Takes out the state with the unpublished changes, to change it.
    pub fn begin_change(&mut self) -> (pending: TreeState)
        requires
            old(self).wf(),
        ensures
            final(self).wf(),
            final(self)@.published == old(self)@.published,
            pending.wf(),
            pending@ == old(self)@.pending,
            pending@.versioned == old(self)@.published.versioned,
    {
        match self.unpublished.take() {
            Some(state) => state,
            None => self.published.duplicate(),
        }
    }

    /// Puts back the state with the unpublished changes.
    pub fn end_change(&mut self, pending: TreeState)
        requires
            old(self).wf(),
            pending.wf(),
            pending@.versioned == old(self)@.published.versioned,
        ensures
            final(self).wf(),
            final(self)@ == (StateModel {
                published: old(self)@.published,
                pending: pending@,
            }),
    {
        self.unpublished = Some(pending);
    }

    /// Lets readers see the unpublished changes.
    pub fn publish(&mut self)
        requires
            old(self).wf(),
        ensures
            final(self).wf(),
            final(self)@ == (StateModel {
                published: old(self)@.pending,
                pending: old(self)@.pending,
            }),
    {
        match self.unpublished.take() {
            Some(state) => {
                self.published = state;
            },
            None => {},
        }
    }

    /// Drops the unpublished changes.
    pub fn rollback(&mut self)
        requires
            old(self).wf(),
        ensures
            final(self).wf(),
            final(self)@ == (StateModel {
                published: old(self)@.published,
                pending: old(self)@.published,
            }),
    {
        self.unpublished = None;
    }

    /// What readers see.
    pub fn into_published(self) -> (published: TreeState)
        requires
            self.wf(),
        ensures
            published.wf(),
            published@ == self@.published,
    {
        self.published
    }

    /// A copy of both states.
    pub fn duplicate(&self) -> (copy: State)
        requires
            self.wf(),
        ensures
            copy.wf(),
            copy@ == self@,
    {
        let unpublished = match &self.unpublished {
            Some(state) => Some(state.duplicate()),
            None => None,
        };
        State { published: self.published.duplicate(), unpublished }
    }
}

} // verus!
