//! The session state of a client: one container session per container.
use vstd::prelude::*;

use crate::container::{is_container_text, partition_entry, set_effect, ContainerSession};
use crate::error::Error;
use crate::ids::{PartitionKeyRangeId, ResourceId};
use crate::partition::{partition_text, PartitionTokenView};

verus! {

/// Index of the last entry of container `id` in `s`, or -1.
pub open spec fn container_index(
    s: Seq<(Seq<char>, Seq<PartitionTokenView>)>,
    id: Seq<char>,
) -> int
    decreases s.len(),
{
    if s.len() == 0 {
        -1
    } else if s.last().0 == id {
        s.len() - 1
    } else {
        container_index(s.drop_last(), id)
    }
}

/// The partition entries of container `id` in `s`, if it is tracked.
pub open spec fn container_entries(
    s: Seq<(Seq<char>, Seq<PartitionTokenView>)>,
    id: Seq<char>,
) -> Option<Seq<PartitionTokenView>> {
    let i = container_index(s, id);
    if i < 0 {
        None
    } else {
        Some(s[i].1)
    }
}

proof fn lemma_container_index_at(
    s: Seq<(Seq<char>, Seq<PartitionTokenView>)>,
    id: Seq<char>,
    i: int,
)
    requires
        -1 <= i < s.len(),
        i == -1 || s[i].0 == id,
        forall|j: int| i < j < s.len() ==> s[j].0 != id,
    ensures
        container_index(s, id) == i,
    decreases s.len(),
{
    if s.len() > 0 && i < s.len() - 1 {
        lemma_container_index_at(s.drop_last(), id, i);
    }
}

/// The session state for all containers of a client.
#[derive(Debug)]
pub struct Session {
    container_sessions: Vec<(ResourceId, ContainerSession)>,
}

impl View for Session {
    type V = Seq<(Seq<char>, Seq<PartitionTokenView>)>;

    closed spec fn view(&self) -> Seq<(Seq<char>, Seq<PartitionTokenView>)> {
        self.container_sessions@.map_values(|e: (ResourceId, ContainerSession)| (e.0.0@, e.1@))
    }
}

impl Session {
    /// Creates a session that tracks no container.
    pub fn new() -> (r: Session)
        ensures
            r@ == Seq::<(Seq<char>, Seq<PartitionTokenView>)>::empty(),
    {
        let r = Session { container_sessions: Vec::new() };
        assert(r@ =~= Seq::<(Seq<char>, Seq<PartitionTokenView>)>::empty());
        r
    }

    fn find(&self, id: &ResourceId) -> (r: Option<usize>)
        ensures
            container_index(self@, id.0@) == (match r {
                Some(i) => i as int,
                None => -1,
            }),
            r is Some ==> r->Some_0 < self@.len() && self@[r->Some_0 as int].0 == id.0@,
    {
        let mut j = self.container_sessions.len();
        while j > 0 && self.container_sessions[j - 1].0.0 != id.0
            invariant
                0 <= j <= self.container_sessions.len(),
                forall|k: int| j <= k < self.container_sessions.len() ==> self@[k].0 != id.0@,
            decreases j,
        {
            j = j - 1;
        }
        proof {
            lemma_container_index_at(self@, id.0@, j - 1);
        }
        if j == 0 {
            None
        } else {
            Some(j - 1)
        }
    }

    /// Takes in a container token text for the given container.
    ///
    /// On a tracked container this is the container session's update. On
    /// an untracked one a container entry is added only when the text is
    /// accepted whole; a failing text adds none.
    pub fn set_session_token(&mut self, container: &ResourceId, token: &str) -> (r: Result<
        (),
        Error,
    >)
        ensures
            ({
                let i = container_index(old(self)@, container.0@);
                let prior = if i >= 0 {
                    old(self)@[i].1
                } else {
                    Seq::empty()
                };
                let eff = set_effect(token@, prior);
                &&& r is Err <==> eff.1 is Some
                &&& r is Err ==> r->Err_0@ == eff.1->Some_0
                &&& i >= 0 ==> final(self)@ == old(self)@.update(i, (container.0@, eff.0))
                &&& i < 0 && eff.1 is None ==> final(self)@ == old(self)@.push(
                    (container.0@, eff.0),
                )
                &&& i < 0 && eff.1 is Some ==> final(self)@ == old(self)@
            }),
    {
        match self.find(container) {
            Some(i) => {
                let (id, mut cs) = self.container_sessions.remove(i);
                let r = cs.set_session_token(token);
                self.container_sessions.insert(i, (id, cs));
                assert(self@ =~= old(self)@.update(i as int, (container.0@, cs@)));
                r
            },
            None => {
                let mut cs = ContainerSession::new();
                let r = cs.set_session_token(token);
                if r.is_ok() {
                    let id = ResourceId(container.0.clone());
                    self.container_sessions.push((id, cs));
                    assert(self@ =~= old(self)@.push((container.0@, cs@)));
                }
                r
            },
        }
    }

    /// The container token text of the given container; `None` when it is
    /// untracked or has no entries.
    pub fn get_session_token(&self, container: &ResourceId) -> (r: Option<String>)
        ensures
            r is None <==> (match container_entries(self@, container.0@) {
                Some(es) => es.len() == 0,
                None => true,
            }),
            r is Some ==> is_container_text(
                container_entries(self@, container.0@)->Some_0,
                r->Some_0@,
            ),
    {
        match self.find(container) {
            Some(i) => self.container_sessions[i].1.get_session_token(),
            None => None,
        }
    }

    /// The text of the given partition's entry in the given container;
    /// `None` when either is untracked.
    pub fn get_partition_session_token(
        &self,
        container: &ResourceId,
        pk_range_id: &PartitionKeyRangeId,
    ) -> (r: Option<String>)
        ensures
            r is None <==> (match container_entries(self@, container.0@) {
                Some(es) => partition_entry(es, pk_range_id.0@) is None,
                None => true,
            }),
            r is Some ==> r->Some_0@ == partition_text(
                partition_entry(
                    container_entries(self@, container.0@)->Some_0,
                    pk_range_id.0@,
                )->Some_0,
            ),
    {
        match self.find(container) {
            Some(i) => self.container_sessions[i].1.get_partition_session_token(pk_range_id),
            None => None,
        }
    }

    /// Clears the entries of the given container, which stays tracked;
    /// does nothing for an untracked container.
    pub fn clear_session(&mut self, container: &ResourceId)
        ensures
            ({
                let i = container_index(old(self)@, container.0@);
                &&& i >= 0 ==> final(self)@ == old(self)@.update(
                    i,
                    (container.0@, Seq::<PartitionTokenView>::empty()),
                )
                &&& i < 0 ==> final(self)@ == old(self)@
            }),
    {
        match self.find(container) {
            Some(i) => {
                let (id, mut cs) = self.container_sessions.remove(i);
                cs.clear_session();
                self.container_sessions.insert(i, (id, cs));
                assert(self@ =~= old(self)@.update(
                    i as int,
                    (container.0@, Seq::<PartitionTokenView>::empty()),
                ));
            },
            None => {},
        }
    }

    /// Forgets every container.
    pub fn clear_all_sessions(&mut self)
        ensures
            final(self)@ == Seq::<(Seq<char>, Seq<PartitionTokenView>)>::empty(),
    {
        self.container_sessions.clear();
        assert(self@ =~= Seq::<(Seq<char>, Seq<PartitionTokenView>)>::empty());
    }

    /// The number of tracked containers.
    pub fn container_count(&self) -> (r: usize)
        ensures
            r == self@.len(),
    {
        self.container_sessions.len()
    }
}

impl Default for Session {
    fn default() -> (r: Session)
        ensures
            r@ == Seq::<(Seq<char>, Seq<PartitionTokenView>)>::empty(),
    {
        Session::new()
    }
}

} // verus!
