//! A lexically scoped value environment: an ordered stack of scope frames,
//! each mapping identifiers to typed values. Frame 0 is the most recently
//! pushed (innermost) frame; offset addressing counts backward from the top
//! of the stack.

use vstd::prelude::*;
use vstd::pervasive::VecAdditionalExecFns;
use vstd::std_specs::vec::vec_index_mut;
use crate::ast::{Ident, Typing, TypingV};

verus! {

/// One scope's identifier-to-value mapping. Keys are unique within a frame;
/// insertion order is irrelevant (the frame's mathematical value is a map).
#[derive(Debug)]
pub struct EnvironmentFrame {
    entries: Vec<(Ident, Typing)>,
}

/// Whether no identifier occurs twice in an entry list.
spec fn keys_unique(s: Seq<(Ident, Typing)>) -> bool {
    forall|i: int, j: int| 0 <= i < j < s.len() ==> (#[trigger] s[i].0@) != (#[trigger] s[j].0@)
}

/// The map an entry list stands for.
spec fn entries_map(s: Seq<(Ident, Typing)>) -> Map<Seq<char>, TypingV>
    decreases s.len(),
{
    if s.len() == 0 {
        Map::empty()
    } else {
        entries_map(s.drop_last()).insert(s.last().0@, s.last().1@)
    }
}

/// Unique keys are kept by dropping the last entry.
proof fn lemma_keys_unique_drop_last(s: Seq<(Ident, Typing)>)
    requires
        keys_unique(s),
        s.len() > 0,
    ensures
        keys_unique(s.drop_last()),
{
    let s1 = s.drop_last();
    assert forall|a: int, b: int| 0 <= a < b < s1.len() implies (#[trigger] s1[a].0@)
        != (#[trigger] s1[b].0@) by {
        assert(s1[a] == s[a]);
        assert(s1[b] == s[b]);
        assert(s[a].0@ != s[b].0@);
    }
}

/// Every entry is in the map, and maps to its own value when keys are unique.
proof fn lemma_entries_map_index(s: Seq<(Ident, Typing)>, i: int)
    requires
        keys_unique(s),
        0 <= i < s.len(),
    ensures
        entries_map(s).contains_key(s[i].0@),
        entries_map(s)[s[i].0@] == s[i].1@,
    decreases s.len(),
{
    if i == s.len() - 1 {
    } else {
        lemma_keys_unique_drop_last(s);
        assert(s.drop_last()[i] == s[i]);
        lemma_entries_map_index(s.drop_last(), i);
        assert(s[i].0@ != s[s.len() - 1].0@);
    }
}

/// A key under no entry is not in the map.
proof fn lemma_entries_map_absent(s: Seq<(Ident, Typing)>, k: Seq<char>)
    requires
        forall|i: int| 0 <= i < s.len() ==> (#[trigger] s[i].0@) != k,
    ensures
        !entries_map(s).contains_key(k),
    decreases s.len(),
{
    if s.len() > 0 {
        assert forall|i: int| 0 <= i < s.drop_last().len() implies (#[trigger] s.drop_last()[i].0@)
            != k by {
            assert(s.drop_last()[i] == s[i]);
        }
        lemma_entries_map_absent(s.drop_last(), k);
        assert(s.last().0@ != k);
    }
}

/// Replacing the value under one key updates the map at that key alone.
proof fn lemma_entries_map_update(s: Seq<(Ident, Typing)>, i: int, p: (Ident, Typing))
    requires
        keys_unique(s),
        0 <= i < s.len(),
        p.0@ == s[i].0@,
    ensures
        keys_unique(s.update(i, p)),
        entries_map(s.update(i, p)) == entries_map(s).insert(p.0@, p.1@),
    decreases s.len(),
{
    let s2 = s.update(i, p);
    assert forall|a: int, b: int| 0 <= a < b < s2.len() implies (#[trigger] s2[a].0@)
        != (#[trigger] s2[b].0@) by {
        assert(s2[a].0@ == s[a].0@);
        assert(s2[b].0@ == s[b].0@);
        assert(s[a].0@ != s[b].0@);
    }
    if i == s.len() - 1 {
        assert(s2.drop_last() =~= s.drop_last());
        assert(entries_map(s2) =~= entries_map(s).insert(p.0@, p.1@));
    } else {
        lemma_keys_unique_drop_last(s);
        assert(s.drop_last()[i] == s[i]);
        lemma_entries_map_update(s.drop_last(), i, p);
        assert(s2.drop_last() =~= s.drop_last().update(i, p));
        assert(s[i].0@ != s[s.len() - 1].0@);
        assert(s2.last() == s.last());
        assert(entries_map(s2) =~= entries_map(s).insert(p.0@, p.1@));
    }
}

/// Removing one entry removes its key from the map.
proof fn lemma_entries_map_remove(s: Seq<(Ident, Typing)>, i: int)
    requires
        keys_unique(s),
        0 <= i < s.len(),
    ensures
        keys_unique(s.remove(i)),
        entries_map(s.remove(i)) == entries_map(s).remove(s[i].0@),
    decreases s.len(),
{
    let s2 = s.remove(i);
    assert forall|a: int, b: int| 0 <= a < b < s2.len() implies (#[trigger] s2[a].0@)
        != (#[trigger] s2[b].0@) by {
        let a1: int = if a < i { a } else { a + 1 };
        let b1: int = if b < i { b } else { b + 1 };
        assert(s2[a] == s[a1]);
        assert(s2[b] == s[b1]);
        assert(s[a1].0@ != s[b1].0@);
    }
    if i == s.len() - 1 {
        assert forall|j: int| 0 <= j < s.drop_last().len() implies (#[trigger] s.drop_last()[j].0@)
            != s[i].0@ by {
            assert(s.drop_last()[j] == s[j]);
            assert(s[j].0@ != s[i].0@);
        }
        lemma_entries_map_absent(s.drop_last(), s[i].0@);
        assert(s2 =~= s.drop_last());
        assert(entries_map(s2) =~= entries_map(s).remove(s[i].0@));
    } else {
        lemma_keys_unique_drop_last(s);
        assert(s.drop_last()[i] == s[i]);
        lemma_entries_map_remove(s.drop_last(), i);
        assert(s2.drop_last() =~= s.drop_last().remove(i));
        assert(s2.last() == s.last());
        assert(s[i].0@ != s[s.len() - 1].0@);
        assert(entries_map(s2) =~= entries_map(s).remove(s[i].0@));
    }
}

impl View for EnvironmentFrame {
    type V = Map<Seq<char>, TypingV>;

    closed spec fn view(&self) -> Map<Seq<char>, TypingV> {
        entries_map(self.entries@)
    }
}

impl EnvironmentFrame {
    /// Keys unique: the representation invariant of a frame.
    pub closed spec fn wf(&self) -> bool {
        keys_unique(self.entries@)
    }

    pub fn new() -> (r: Self)
        ensures
            r.wf(),
            r@ == Map::<Seq<char>, TypingV>::empty(),
    {
        let r = Self { entries: Vec::new() };
        proof {
            assert(r@ =~= Map::<Seq<char>, TypingV>::empty());
        }
        r
    }

    /// The index of the entry bound to `id`, if any.
    fn find(&self, id: &Ident) -> (r: Option<usize>)
        requires
            self.wf(),
        ensures
            match r {
                Some(i) => i < self.entries@.len() && self.entries@[i as int].0@ == id@
                    && self@.contains_key(id@) && self@[id@] == self.entries@[i as int].1@,
                None => !self@.contains_key(id@),
            },
    {
        let mut i: usize = 0;
        while i < self.entries.len()
            invariant
                self.wf(),
                0 <= i <= self.entries@.len(),
                forall|j: int| 0 <= j < i ==> self.entries@[j].0@ != id@,
            decreases self.entries@.len() - i,
        {
            if self.entries[i].0 == *id {
                proof {
                    lemma_entries_map_index(self.entries@, i as int);
                }
                return Some(i);
            }
            i += 1;
        }
        proof {
            lemma_entries_map_absent(self.entries@, id@);
        }
        None
    }

    pub fn get(&self, id: &Ident) -> (r: Option<&Typing>)
        requires
            self.wf(),
        ensures
            match r {
                Some(v) => self@.contains_key(id@) && self@[id@] == v@,
                None => !self@.contains_key(id@),
            },
    {
        match self.find(id) {
            Some(i) => Some(&self.entries[i].1),
            None => None,
        }
    }

    pub fn contains_key(&self, id: &Ident) -> (r: bool)
        requires
            self.wf(),
        ensures
            r == self@.contains_key(id@),
    {
        self.find(id).is_some()
    }

    /// Binds `id` to `data`, returning the value it replaced, if any.
    pub fn insert(&mut self, id: Ident, data: Typing) -> (r: Option<Typing>)
        requires
            old(self).wf(),
        ensures
            final(self).wf(),
            final(self)@ == old(self)@.insert(id@, data@),
            match r {
                Some(v) => old(self)@.contains_key(id@) && old(self)@[id@] == v@,
                None => !old(self)@.contains_key(id@),
            },
    {
        match self.find(&id) {
            Some(i) => {
                let mut pair = (id, data);
                self.entries.set_and_swap(i, &mut pair);
                proof {
                    lemma_entries_map_update(
                        old(self).entries@,
                        i as int,
                        self.entries@[i as int],
                    );
                }
                Some(pair.1)
            },
            None => {
                self.entries.push((id, data));
                proof {
                    let s = old(self).entries@;
                    let s2 = self.entries@;
                    assert(s2.drop_last() =~= s);
                    assert forall|j: int| 0 <= j < s.len() implies s[j].0@ != id@ by {
                        if s[j].0@ == id@ {
                            lemma_entries_map_index(s, j);
                        }
                    }
                    assert forall|a: int, b: int|
                        0 <= a < b < s2.len() implies (#[trigger] s2[a].0@)
                        != (#[trigger] s2[b].0@) by {
                        assert(s2[a] == s[a]);
                        if b < s2.len() - 1 {
                            assert(s2[b] == s[b]);
                            assert(s[a].0@ != s[b].0@);
                        } else {
                            assert(s[a].0@ != id@);
                        }
                    }
                }
                None
            },
        }
    }

    /// Deletes the binding of `id`, returning the removed value, if any.
    pub fn remove(&mut self, id: &Ident) -> (r: Option<Typing>)
        requires
            old(self).wf(),
        ensures
            final(self).wf(),
            final(self)@ == old(self)@.remove(id@),
            match r {
                Some(v) => old(self)@.contains_key(id@) && old(self)@[id@] == v@,
                None => !old(self)@.contains_key(id@),
            },
    {
        match self.find(id) {
            Some(i) => {
                let pair = self.entries.remove(i);
                proof {
                    lemma_entries_map_remove(old(self).entries@, i as int);
                }
                Some(pair.1)
            },
            None => {
                proof {
                    assert(self@ =~= self@.remove(id@));
                }
                None
            },
        }
    }
}

/// The first binding of `id`, searching frames from innermost (the end of
/// the stack) to outermost: inner bindings shadow outer ones by construction.
pub open spec fn env_lookup(frames: Seq<Map<Seq<char>, TypingV>>, id: Seq<char>) -> Option<TypingV>
    decreases frames.len(),
{
    if frames.len() == 0 {
        None
    } else if frames.last().contains_key(id) {
        Some(frames.last()[id])
    } else {
        env_lookup(frames.drop_last(), id)
    }
}

/// An ordered stack of scope frames. The stack always holds at least one
/// frame (the root frame) once initialized. The `_offset` functions address
/// the single frame `offset` steps below the top of the stack and search
/// only it.
#[derive(Debug)]
pub struct Environment {
    frames: Vec<EnvironmentFrame>,
}

impl View for Environment {
    type V = Seq<Map<Seq<char>, TypingV>>;

    closed spec fn view(&self) -> Seq<Map<Seq<char>, TypingV>> {
        self.frames@.map_values(|f: EnvironmentFrame| f@)
    }
}

impl Environment {
    /// Every frame well formed.
    pub closed spec fn frames_wf(&self) -> bool {
        forall|i: int| 0 <= i < self.frames@.len() ==> (#[trigger] self.frames@[i]).wf()
    }

    /// At least the root frame present, every frame well formed.
    pub open spec fn wf(&self) -> bool {
        &&& self@.len() >= 1
        &&& self.frames_wf()
    }

    /// The index into the frame stack that `offset` steps below the top
    /// addresses.
    pub open spec fn spec_index_of(&self, offset: int) -> int {
        self@.len() - offset - 1
    }

    pub fn new() -> (r: Self)
        ensures
            r.wf(),
            r@ =~= seq![Map::<Seq<char>, TypingV>::empty()],
    {
        let mut frames = Vec::new();
        frames.push(EnvironmentFrame::new());
        Self { frames }
    }

    /// Appends a new empty frame on top of the stack.
    pub fn push(&mut self)
        requires
            old(self).wf(),
        ensures
            final(self).wf(),
            final(self)@ =~= old(self)@.push(Map::<Seq<char>, TypingV>::empty()),
    {
        self.frames.push(EnvironmentFrame::new());
    }

    /// Removes the top frame. The root frame is never popped: popping a
    /// single-frame stack is a logic error the caller must avoid.
    pub fn pop(&mut self)
        requires
            old(self).wf(),
            old(self)@.len() >= 2,
        ensures
            final(self).wf(),
            final(self)@ =~= old(self)@.drop_last(),
    {
        let _ = self.frames.pop();
    }

    /// How many frames the stack holds.
    pub fn depth(&self) -> (r: usize)
        ensures
            r == self@.len(),
    {
        self.frames.len()
    }

    fn index(&self, offset: usize) -> (r: usize)
        requires
            self.wf(),
            offset < self@.len(),
        ensures
            r == self.spec_index_of(offset as int),
    {
        self.frames.len() - offset - 1
    }

    /// Searches all frames from innermost to outermost, returning the first
    /// match.
    pub fn get(&self, id: &Ident) -> (r: Option<&Typing>)
        requires
            self.wf(),
        ensures
            match r {
                Some(v) => env_lookup(self@, id@) == Some(v@),
                None => env_lookup(self@, id@) is None,
            },
    {
        let n = self.frames.len();
        proof {
            assert(self@.take(n as int) =~= self@);
        }
        let mut i: usize = 0;
        while i < n
            invariant
                self.wf(),
                n == self@.len(),
                0 <= i <= n,
                env_lookup(self@, id@) == env_lookup(self@.take(n - i), id@),
            decreases n - i,
        {
            proof {
                assert(self@.take(n - i).last() == self@[n - 1 - i]);
                assert(self@.take(n - i).drop_last() =~= self@.take(n - i - 1));
            }
            let s = self.get_offset(id, i);
            if s.is_some() {
                return s;
            }
            i += 1;
        }
        None
    }

    /// Looks `id` up only in the frame `offset` steps below the top.
    pub fn get_offset(&self, id: &Ident, offset: usize) -> (r: Option<&Typing>)
        requires
            self.wf(),
            offset < self@.len(),
        ensures
            match r {
                Some(v) => self@[self.spec_index_of(offset as int)].contains_key(id@)
                    && self@[self.spec_index_of(offset as int)][id@] == v@,
                None => !self@[self.spec_index_of(offset as int)].contains_key(id@),
            },
    {
        let i = self.index(offset);
        self.frames[i].get(id)
    }

    /// Whether any frame binds `id`.
    pub fn contains(&self, id: &Ident) -> (r: bool)
        requires
            self.wf(),
        ensures
            r == (env_lookup(self@, id@) is Some),
    {
        let n = self.frames.len();
        proof {
            assert(self@.take(n as int) =~= self@);
        }
        let mut i: usize = 0;
        while i < n
            invariant
                self.wf(),
                n == self@.len(),
                0 <= i <= n,
                env_lookup(self@, id@) == env_lookup(self@.take(n - i), id@),
            decreases n - i,
        {
            proof {
                assert(self@.take(n - i).last() == self@[n - 1 - i]);
                assert(self@.take(n - i).drop_last() =~= self@.take(n - i - 1));
            }
            if self.contains_offset(id, i) {
                return true;
            }
            i += 1;
        }
        false
    }

    /// Whether the frame `offset` steps below the top binds `id`.
    pub fn contains_offset(&self, id: &Ident, offset: usize) -> (r: bool)
        requires
            self.wf(),
            offset < self@.len(),
        ensures
            r == self@[self.spec_index_of(offset as int)].contains_key(id@),
    {
        let i = self.index(offset);
        self.frames[i].contains_key(id)
    }

    /// Binds `id` in the innermost frame and returns the value it replaced
    /// there, if any (so a caller can tell a fresh binding from a rebind).
    pub fn set(&mut self, id: Ident, data: Typing) -> (r: Option<Typing>)
        requires
            old(self).wf(),
        ensures
            final(self).wf(),
            final(self)@ =~= old(self)@.update(
                old(self)@.len() - 1,
                old(self)@.last().insert(id@, data@),
            ),
            match r {
                Some(v) => old(self)@.last().contains_key(id@) && old(self)@.last()[id@] == v@,
                None => !old(self)@.last().contains_key(id@),
            },
    {
        self.set_offset(id, data, 0)
    }

    /// Binds `id` in the frame `offset` steps below the top and returns the
    /// value it replaced there, if any.
    pub fn set_offset(&mut self, id: Ident, data: Typing, offset: usize) -> (r: Option<Typing>)
        requires
            old(self).wf(),
            offset < old(self)@.len(),
        ensures
            final(self).wf(),
            final(self)@ =~= old(self)@.update(
                old(self).spec_index_of(offset as int),
                old(self)@[old(self).spec_index_of(offset as int)].insert(id@, data@),
            ),
            match r {
                Some(v) => old(self)@[old(self).spec_index_of(offset as int)].contains_key(id@)
                    && old(self)@[old(self).spec_index_of(offset as int)][id@] == v@,
                None => !old(self)@[old(self).spec_index_of(offset as int)].contains_key(id@),
            },
    {
        let i = self.index(offset);
        let frame = vec_index_mut(&mut self.frames, i);
        let r = frame.insert(id, data);
        proof {
            assert(self.frames@ =~= old(self).frames@.update(i as int, self.frames@[i as int]));
            assert(self@ =~= old(self)@.update(i as int, self.frames@[i as int]@));
        }
        r
    }

    /// Deletes the binding of `id` from the innermost frame, returning the
    /// removed value if it was present.
    pub fn remove(&mut self, id: &Ident) -> (r: Option<Typing>)
        requires
            old(self).wf(),
        ensures
            final(self).wf(),
            final(self)@ =~= old(self)@.update(old(self)@.len() - 1, old(self)@.last().remove(id@)),
            match r {
                Some(v) => old(self)@.last().contains_key(id@) && old(self)@.last()[id@] == v@,
                None => !old(self)@.last().contains_key(id@),
            },
    {
        self.remove_offset(id, 0)
    }

    /// Deletes the binding of `id` from the frame `offset` steps below the
    /// top, returning the removed value if it was present.
    pub fn remove_offset(&mut self, id: &Ident, offset: usize) -> (r: Option<Typing>)
        requires
            old(self).wf(),
            offset < old(self)@.len(),
        ensures
            final(self).wf(),
            final(self)@ =~= old(self)@.update(
                old(self).spec_index_of(offset as int),
                old(self)@[old(self).spec_index_of(offset as int)].remove(id@),
            ),
            match r {
                Some(v) => old(self)@[old(self).spec_index_of(offset as int)].contains_key(id@)
                    && old(self)@[old(self).spec_index_of(offset as int)][id@] == v@,
                None => !old(self)@[old(self).spec_index_of(offset as int)].contains_key(id@),
            },
    {
        let i = self.index(offset);
        let frame = vec_index_mut(&mut self.frames, i);
        let r = frame.remove(id);
        proof {
            assert(self.frames@ =~= old(self).frames@.update(i as int, self.frames@[i as int]));
            assert(self@ =~= old(self)@.update(i as int, self.frames@[i as int]@));
        }
        r
    }
}

} // verus!
