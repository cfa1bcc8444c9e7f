//! The per-tag ID allocator: for each tag, the highest number handed out.
use vstd::prelude::*;
use vstd::string::StringExecFns;

verus! {

/// The map that a list of `(tag, counter)` entries stands for.
pub open spec fn entries_map(es: Seq<(String, u64)>) -> Map<Seq<char>, u64>
    decreases es.len(),
{
    if es.len() == 0 {
        Map::empty()
    } else {
        entries_map(es.drop_last()).insert(es.last().0@, es.last().1)
    }
}

/// No tag occurs twice.
pub open spec fn keys_unique(es: Seq<(String, u64)>) -> bool {
    forall|i: int, j: int| 0 <= i < j < es.len() ==> es[i].0@ != es[j].0@
}

/// The counter of a tag: 0 for a tag never seen.
pub open spec fn counter(m: Map<Seq<char>, u64>, tag: Seq<char>) -> u64 {
    if m.contains_key(tag) {
        m[tag]
    } else {
        0
    }
}

proof fn lemma_lookup(es: Seq<(String, u64)>, i: int)
    requires
        keys_unique(es),
        0 <= i < es.len(),
    ensures
        entries_map(es).contains_key(es[i].0@),
        entries_map(es)[es[i].0@] == es[i].1,
    decreases es.len(),
{
    if i < es.len() - 1 {
        lemma_lookup(es.drop_last(), i);
    }
}

proof fn lemma_absent(es: Seq<(String, u64)>, k: Seq<char>)
    requires
        forall|i: int| 0 <= i < es.len() ==> (#[trigger] es[i]).0@ != k,
    ensures
        !entries_map(es).contains_key(k),
    decreases es.len(),
{
    if es.len() > 0 {
        lemma_absent(es.drop_last(), k);
    }
}

proof fn lemma_update(es: Seq<(String, u64)>, i: int, e: (String, u64))
    requires
        keys_unique(es),
        0 <= i < es.len(),
        e.0@ == es[i].0@,
    ensures
        entries_map(es.update(i, e)) == entries_map(es).insert(e.0@, e.1),
    decreases es.len(),
{
    let u = es.update(i, e);
    if i == es.len() - 1 {
        assert(u.drop_last() =~= es.drop_last());
        assert(entries_map(u) =~= entries_map(es).insert(e.0@, e.1));
    } else {
        assert(u.drop_last() =~= es.drop_last().update(i, e));
        lemma_update(es.drop_last(), i, e);
        assert(entries_map(u) =~= entries_map(es).insert(e.0@, e.1));
    }
}

/// Counters per tag. Each tag has at most one entry.
pub struct State {
    tags: Vec<(String, u64)>,
}

impl View for State {
    type V = Map<Seq<char>, u64>;

    closed spec fn view(&self) -> Map<Seq<char>, u64> {
        entries_map(self.tags@)
    }
}

impl Default for State {
    fn default() -> (r: State)
        ensures
            r.wf(),
            r@ == Map::<Seq<char>, u64>::empty(),
    {
        State::new()
    }
}

impl State {
    pub closed spec fn wf(&self) -> bool {
        keys_unique(self.tags@)
    }

    /// No counters at all.
    pub fn new() -> (r: State)
        ensures
            r.wf(),
            r@ == Map::<Seq<char>, u64>::empty(),
    {
        State { tags: Vec::new() }
    }

    fn index_of(&self, tag: &str) -> (r: Option<usize>)
        requires
            self.wf(),
        ensures
            match r {
                Some(i) => i < self.tags@.len() && self.tags@[i as int].0@ == tag@,
                None => forall|i: int|
                    0 <= i < self.tags@.len() ==> (#[trigger] self.tags@[i]).0@ != tag@,
            },
    {
        let want = String::from_str(tag);
        let mut i: usize = 0;
        while i < self.tags.len()
            invariant
                i <= self.tags@.len(),
                want@ == tag@,
                forall|k: int| 0 <= k < i ==> (#[trigger] self.tags@[k]).0@ != tag@,
            decreases self.tags@.len() - i,
        {
            if self.tags[i].0 == want {
                return Some(i);
            }
            i += 1;
        }
        None
    }

    /// The counter of `tag`, 0 when it has none.
    pub fn get(&self, tag: &str) -> (r: u64)
        requires
            self.wf(),
        ensures
            r == counter(self@, tag@),
    {
        match self.index_of(tag) {
            Some(i) => {
                proof {
                    lemma_lookup(self.tags@, i as int);
                }
                self.tags[i].1
            },
            None => {
                proof {
                    lemma_absent(self.tags@, tag@);
                }
                0
            },
        }
    }

    /// Sets the counter of `tag` to `value`.
    pub fn set(&mut self, tag: &str, value: u64)
        requires
            old(self).wf(),
        ensures
            final(self).wf(),
            final(self)@ == old(self)@.insert(tag@, value),
    {
        let e = (String::from_str(tag), value);
        match self.index_of(tag) {
            Some(i) => {
                proof {
                    lemma_update(self.tags@, i as int, e);
                }
                self.tags.set(i, e);
            },
            None => {
                self.tags.push(e);
                assert(self.tags@.drop_last() =~= old(self).tags@);
            },
        }
    }

    /// The entries, one per tag.
    pub fn entries(&self) -> (r: Vec<(String, u64)>)
        requires
            self.wf(),
        ensures
            keys_unique(r@),
            entries_map(r@) == self@,
    {
        let mut out: Vec<(String, u64)> = Vec::new();
        let mut i: usize = 0;
        while i < self.tags.len()
            invariant
                i <= self.tags@.len(),
                keys_unique(self.tags@),
                out@.len() == i,
                forall|k: int| 0 <= k < i ==> (#[trigger] out@[k]).0@ == self.tags@[k].0@ && out@[k].1 == self.tags@[k].1,
                entries_map(out@) == entries_map(self.tags@.take(i as int)),
            decreases self.tags@.len() - i,
        {
            let e = (self.tags[i].0.clone(), self.tags[i].1);
            assert(self.tags@.take(i + 1).drop_last() =~= self.tags@.take(i as int));
            assert(out@.push(e).drop_last() =~= out@);
            out.push(e);
            i += 1;
        }
        assert(self.tags@.take(i as int) =~= self.tags@);
        out
    }

    /// Raises the counter of `tag` to `min` when it is lower; a tag without
    /// a counter gets one.
    pub fn sync_min(&mut self, tag: &str, min: u64)
        requires
            old(self).wf(),
        ensures
            final(self).wf(),
            final(self)@ == old(self)@.insert(
                tag@,
                if counter(old(self)@, tag@) < min {
                    min
                } else {
                    counter(old(self)@, tag@)
                },
            ),
    {
        let cur = self.get(tag);
        if cur < min {
            self.set(tag, min);
        } else {
            self.set(tag, cur);
        }
    }

    /// Hands out the next number of `tag`: its counter plus one, which
    /// becomes the new counter. The first number of a tag is 1.
    pub fn next_id(&mut self, tag: &str) -> (r: u64)
        requires
            old(self).wf(),
            counter(old(self)@, tag@) < u64::MAX,
        ensures
            final(self).wf(),
            r == counter(old(self)@, tag@) + 1,
            final(self)@ == old(self)@.insert(tag@, r),
    {
        let cur = self.get(tag);
        self.set(tag, cur + 1);
        cur + 1
    }
}

} // verus!
