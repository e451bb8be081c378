//! A symbol table: maps token strings to sequential integer identifiers,
//! assigned in first-seen order. Identifiers are never reclaimed, reused, or
//! renumbered, so removals can leave permanent gaps in the identifier range.

use vstd::prelude::*;
use crate::hash_table::HashTable;

verus! {

/// Maps each distinct token to a unique, non-negative identifier, handed out
/// sequentially in the order in which tokens are first inserted.
pub struct SymbolTable {
    hash_table: HashTable<String, i32>,
    last_index: i32,
}

impl View for SymbolTable {
    type V = Map<Seq<char>, i32>;

    closed spec fn view(&self) -> Map<Seq<char>, i32> {
        self.hash_table@
    }
}

impl SymbolTable {
    /// The identifier most recently assigned; `-1` before any assignment.
    pub closed spec fn spec_last_id(&self) -> int {
        self.last_index as int
    }

    /// The internal invariant: the underlying table is well formed, every
    /// live identifier lies between zero and the last assigned one, distinct
    /// tokens hold distinct identifiers, and the table's storage stays small
    /// enough (relative to the identifiers handed out) that growth cannot
    /// overflow the machine.
    pub closed spec fn wf(&self) -> bool {
        &&& self.hash_table.wf()
        &&& -1 <= self.last_index
        &&& forall|t: Seq<char>| #![trigger self@.contains_key(t)] self@.contains_key(t) ==> 0
            <= self@[t] <= self.last_index
        &&& forall|t1: Seq<char>, t2: Seq<char>|
            #![trigger self@[t1], self@[t2]]
            self@.contains_key(t1) && self@.contains_key(t2) && t1 != t2 ==> self@[t1] != self@[t2]
        &&& self.hash_table.spec_used() <= self.last_index + 1
        &&& self.hash_table.spec_cap() <= vstd::math::max(64, 3 * (self.last_index + 1))
    }

    /// Creates an empty symbol table; no identifier has been assigned yet.
    pub fn new() -> (st: Self)
        ensures
            st.wf(),
            st@ == Map::<Seq<char>, i32>::empty(),
            st.spec_last_id() == -1,
    {
        Self { hash_table: HashTable::new(), last_index: -1 }
    }

    /// The number of tokens currently mapped.
    pub fn len(&self) -> (n: usize)
        requires
            self.wf(),
        ensures
            n as int == self@.dom().len(),
    {
        self.hash_table.len()
    }

    /// Assigns the next identifier to the token, unless the token already has
    /// one, in which case nothing changes at all.
    pub fn insert_symbol(&mut self, token: String)
        requires
            old(self).wf(),
            old(self)@.contains_key(token@) || old(self).spec_last_id() < i32::MAX as int,
            old(self)@.contains_key(token@) || 12 * (old(self).spec_last_id() + 2)
                <= usize::MAX as int,
        ensures
            final(self).wf(),
            old(self)@.contains_key(token@) ==> *final(self) == *old(self),
            !old(self)@.contains_key(token@) ==> final(self)@ == old(self)@.insert(
                token@,
                (old(self).spec_last_id() + 1) as i32,
            ) && final(self).spec_last_id() == old(self).spec_last_id() + 1,
    {
        if self.contains_token(token.clone()) {
            return;
        }
        self.last_index = self.last_index + 1;
        let pos: i32 = self.last_index;
        let _ = self.hash_table.insert(token, pos);
    }

    /// The identifier of the token, if the token is known.
    pub fn get_position_of_symbol(&self, token: String) -> (r: Option<&i32>)
        requires
            self.wf(),
        ensures
            match r {
                Some(p) => self@.contains_key(token@) && *p == self@[token@],
                None => !self@.contains_key(token@),
            },
    {
        self.hash_table.get(&token)
    }

    /// The unique token currently mapped to the identifier, if any, found by
    /// a full scan over all live pairs.
    pub fn get_symbol_at_position(&self, given_position: &i32) -> (r: Option<&String>)
        requires
            self.wf(),
        ensures
            match r {
                Some(t) => self@.contains_key(t@) && self@[t@] == *given_position,
                None => forall|t: Seq<char>| #![trigger self@.contains_key(t)] self@.contains_key(t)
                    ==> self@[t] != *given_position,
            },
    {
        let pairs = self.hash_table.iter();
        let n: usize = pairs.len();
        let mut i: usize = 0;
        while i < n
            invariant
                self.wf(),
                n == pairs@.len(),
                i <= n,
                forall|k: int|
                    #![trigger pairs@[k]]
                    0 <= k < pairs@.len() ==> self@.contains_key(pairs@[k].0@) && *(pairs@[k].1)
                        == self@[pairs@[k].0@],
                forall|kv: Seq<char>| #![trigger self@.contains_key(kv)] self@.contains_key(kv)
                    ==> exists|k: int| 0 <= k < pairs@.len() && #[trigger] (pairs@[k].0@) == kv,
                forall|k: int| #![trigger pairs@[k]] 0 <= k < i ==> *(pairs@[k].1)
                    != *given_position,
            decreases n - i,
        {
            let pair: (&String, &i32) = pairs[i];
            if *pair.1 == *given_position {
                return Some(pair.0);
            }
            i = i + 1;
        }
        proof {
            assert forall|t: Seq<char>| self@.contains_key(t) implies self@[t]
                != *given_position by {
                let k = choose|k: int| 0 <= k < pairs@.len() && #[trigger] (pairs@[k].0@) == t;
                assert(*(pairs@[k].1) != *given_position);
            }
        }
        None
    }

    /// Deletes the token's mapping if present. Its identifier is not
    /// reclaimed: the identifier sequence keeps the gap forever.
    pub fn remove(&mut self, key: String)
        requires
            old(self).wf(),
        ensures
            final(self).wf(),
            final(self)@ == old(self)@.remove(key@),
            final(self).spec_last_id() == old(self).spec_last_id(),
    {
        let _ = self.hash_table.remove(&key);
        proof {
            assert forall|t: Seq<char>| self@.contains_key(t) implies 0 <= self@[t]
                <= self.last_index by {
                assert(old(self)@.contains_key(t));
            }
            assert forall|t1: Seq<char>, t2: Seq<char>|
                self@.contains_key(t1) && self@.contains_key(t2) && t1 != t2 implies self@[t1]
                != self@[t2] by {
                assert(old(self)@.contains_key(t1));
                assert(old(self)@.contains_key(t2));
                assert(old(self)@[t1] != old(self)@[t2]);
            }
        }
    }

    /// Reports whether the token currently has an identifier.
    pub fn contains_token(&self, token: String) -> (b: bool)
        requires
            self.wf(),
        ensures
            b == self@.contains_key(token@),
    {
        self.hash_table.contains_key(&token)
    }
}

/// Distinct live tokens always hold distinct identifiers.
pub proof fn lemma_ids_unique(st: SymbolTable, t1: Seq<char>, t2: Seq<char>)
    requires
        st.wf(),
        st@.contains_key(t1),
        st@.contains_key(t2),
        t1 != t2,
    ensures
        st@[t1] != st@[t2],
{
}

/// Every live identifier lies between zero and the last assigned one, so a
/// token inserted later always receives a strictly larger identifier.
pub proof fn lemma_ids_bounded(st: SymbolTable, t: Seq<char>)
    requires
        st.wf(),
        st@.contains_key(t),
    ensures
        0 <= st@[t] <= st.spec_last_id(),
{
}

} // verus!
