use vstd::prelude::*;
use crate::json::JsonView;
use crate::value::Value;

verus! {

/// What a frame binds: variable names to the documents they hold.
pub type Bindings = Map<Seq<char>, JsonView>;

/// The bindings of each frame of a list.
pub open spec fn frames_view(v: Seq<Frame>) -> Seq<Bindings> {
    v.map_values(|f: Frame| f@)
}

/// Every frame of a list is well formed.
pub open spec fn all_wf(v: Seq<Frame>) -> bool {
    forall|i: int| 0 <= i < v.len() ==> (#[trigger] v[i]).wf()
}

/// Appending a frame appends its bindings.
pub proof fn lemma_frames_push(v: Seq<Frame>, f: Frame)
    ensures
        frames_view(v.push(f)) == frames_view(v).push(f@),
{
    assert(frames_view(v.push(f)) =~= frames_view(v).push(f@));
}

/// Appending a list appends its bindings.
pub proof fn lemma_frames_append(v: Seq<Frame>, w: Seq<Frame>)
    ensures
        frames_view(v + w) == frames_view(v) + frames_view(w),
{
    assert(frames_view(v + w) =~= frames_view(v) + frames_view(w));
}

/// One candidate solution: a set of variable bindings, each name bound once.
pub struct Frame {
    entries: Vec<(String, Value)>,
    model: Ghost<Bindings>,
}

impl View for Frame {
    type V = Bindings;

    closed spec fn view(&self) -> Bindings {
        self.model@
    }
}

impl Frame {
    /// Names are unique, every entry is in the model with its hash in place,
    /// and the model holds nothing else.
    pub closed spec fn wf(&self) -> bool {
        &&& forall|i: int, j: int|
            0 <= i < j < self.entries.len() ==> #[trigger] self.entries@[i].0@
                != #[trigger] self.entries@[j].0@
        &&& forall|i: int|
            0 <= i < self.entries.len() ==> {
                &&& self.model@.contains_key(#[trigger] self.entries@[i].0@)
                &&& self.model@[self.entries@[i].0@] == self.entries@[i].1.json@
                &&& self.entries@[i].1.wf()
            }
        &&& forall|k: Seq<char>|
            #[trigger] self.model@.contains_key(k) ==> exists|i: int|
                0 <= i < self.entries.len() && #[trigger] self.entries@[i].0@ == k
    }

    /// The empty frame.
    pub fn new() -> (r: Frame)
        ensures
            r.wf(),
            r@ == Map::<Seq<char>, JsonView>::empty(),
    {
        Frame { entries: Vec::new(), model: Ghost(Map::empty()) }
    }

    fn index_of(&self, name: &str) -> (r: Option<usize>)
        requires
            self.wf(),
        ensures
            match r {
                Some(i) => i < self.entries.len() && self.entries@[i as int].0@ == name@,
                None => !self@.contains_key(name@),
            },
    {
        let wanted = name.to_owned();
        let mut i: usize = 0;
        while i < self.entries.len()
            invariant
                self.wf(),
                wanted@ == name@,
                i <= self.entries.len(),
                forall|k: int| 0 <= k < i ==> #[trigger] self.entries@[k].0@ != name@,
            decreases self.entries.len() - i,
        {
            if self.entries[i].0 == wanted {
                return Some(i);
            }
            i = i + 1;
        }
        None
    }

    /// The value bound to `name`, if any.
    pub fn get(&self, name: &str) -> (r: Option<&Value>)
        requires
            self.wf(),
        ensures
            match r {
                Some(v) => self@.contains_key(name@) && v.json@ == self@[name@] && v.wf(),
                None => !self@.contains_key(name@),
            },
    {
        match self.index_of(name) {
            Some(i) => Some(&self.entries[i].1),
            None => None,
        }
    }

    /// Whether `name` is bound.
    pub fn contains(&self, name: &str) -> (r: bool)
        requires
            self.wf(),
        ensures
            r == self@.contains_key(name@),
    {
        self.index_of(name).is_some()
    }

    /// Binds `name` to `value`, replacing any earlier binding of it.
    pub fn add(&mut self, name: &str, value: Value)
        requires
            old(self).wf(),
            value.wf(),
        ensures
            final(self).wf(),
            final(self)@ == old(self)@.insert(name@, value.json@),
    {
        let ghost vj = value.json@;
        let ghost m = self.model@.insert(name@, vj);
        match self.index_of(name) {
            Some(i) => {
                self.entries.set(i, (name.to_owned(), value));
                self.model = Ghost(m);
                assert forall|k: Seq<char>| #[trigger] self.model@.contains_key(k) implies exists|j: int|
                    0 <= j < self.entries.len() && #[trigger] self.entries@[j].0@ == k by {
                    if k != name@ {
                        let j = choose|j: int| 0 <= j < old(self).entries.len() && #[trigger] old(self).entries@[j].0@ == k;
                        assert(self.entries@[j].0@ == k);
                    } else {
                        assert(self.entries@[i as int].0@ == k);
                    }
                }
            },
            None => {
                self.entries.push((name.to_owned(), value));
                self.model = Ghost(m);
                assert forall|k: Seq<char>| #[trigger] self.model@.contains_key(k) implies exists|j: int|
                    0 <= j < self.entries.len() && #[trigger] self.entries@[j].0@ == k by {
                    if k != name@ {
                        let j = choose|j: int| 0 <= j < old(self).entries.len() && #[trigger] old(self).entries@[j].0@ == k;
                        assert(self.entries@[j].0@ == k);
                    } else {
                        assert(self.entries@[self.entries.len() - 1].0@ == k);
                    }
                }
            },
        }
    }

    /// Every entry of a frame is a concrete binding, so every frame is resolved.
    pub fn is_resolved(&self) -> (r: bool)
        ensures
            r,
    {
        true
    }

    /// The bindings in the order they were made.
    pub fn entries(&self) -> (r: &Vec<(String, Value)>)
        requires
            self.wf(),
        ensures
            forall|i: int| 0 <= i < r.len() ==> self@.contains_key(#[trigger] r@[i].0@) && self@[r@[i].0@] == r@[i].1.json@,
            forall|k: Seq<char>| #[trigger] self@.contains_key(k) ==> exists|i: int| 0 <= i < r.len() && #[trigger] r@[i].0@ == k,
    {
        &self.entries
    }

    /// An independent copy of this frame.
    pub fn duplicate(&self) -> (r: Frame)
        requires
            self.wf(),
        ensures
            r.wf(),
            r@ == self@,
    {
        let mut entries: Vec<(String, Value)> = Vec::new();
        let mut i: usize = 0;
        while i < self.entries.len()
            invariant
                self.wf(),
                i <= self.entries.len(),
                entries.len() == i,
                forall|k: int| 0 <= k < i ==> {
                    &&& #[trigger] entries@[k].0@ == self.entries@[k].0@
                    &&& entries@[k].1.json@ == self.entries@[k].1.json@
                    &&& entries@[k].1.hash == self.entries@[k].1.hash
                },
            decreases self.entries.len() - i,
        {
            let e = &self.entries[i];
            let name = e.0.clone();
            let value = e.1.clone();
            entries.push((name, value));
            assert(entries@[i as int].1.json@ == self.entries@[i as int].1.json@);
            i = i + 1;
        }
        let r = Frame { entries, model: Ghost(self.model@) };
        assert forall|k: Seq<char>| #[trigger] r.model@.contains_key(k) implies exists|j: int|
            0 <= j < r.entries.len() && #[trigger] r.entries@[j].0@ == k by {
            let j = choose|j: int| 0 <= j < self.entries.len() && #[trigger] self.entries@[j].0@ == k;
            assert(r.entries@[j].0@ == k);
        }
        r
    }
}

} // verus!
