use crate::file_buffer::FileBuffer;
use vstd::prelude::*;

verus! {

/// A buffer put under a name is what reading the name gives back; removing a name that
/// was added fresh gives back the map as it was; other names are untouched.
pub proof fn law_add_get_remove(
    m: Map<Seq<char>, Seq<Seq<char>>>,
    name: Seq<char>,
    b: Seq<Seq<char>>,
    other: Seq<char>,
)
    ensures
        m.insert(name, b).contains_key(name),
        m.insert(name, b)[name] == b,
        !m.contains_key(name) ==> m.insert(name, b).remove(name) == m,
        other != name ==> m.insert(name, b).contains_key(other) == m.contains_key(other),
        other != name && m.contains_key(other) ==> m.insert(name, b)[other] == m[other],
{
    if !m.contains_key(name) {
        assert(m.insert(name, b).remove(name) =~= m);
    }
}

/// File buffers by name. Each name occurs at most once.
///
/// The pairs are held in a vector rather than a `HashMap<String, FileBuffer>`: vstd's
/// contracts for `HashMap` hold only for key types that it knows to hash and compare
/// consistently, and `String` is not among them, so nothing could be proved of such a
/// map. The vector, kept free of repeated names, gives the same map.
pub struct BufferMap {
    buffers: Vec<(String, FileBuffer)>,
}

impl BufferMap {
    /// No name occurs twice.
    pub closed spec fn wf(&self) -> bool {
        forall|i: int, j: int|
            0 <= i < self.buffers.len() && 0 <= j < self.buffers.len() && i != j
                ==> #[trigger] self.buffers@[i].0@ != #[trigger] self.buffers@[j].0@
    }

    spec fn has_name(&self, name: Seq<char>) -> bool {
        exists|i: int| 0 <= i < self.buffers.len() && self.buffers@[i].0@ == name
    }

    spec fn index_of(&self, name: Seq<char>) -> int {
        choose|i: int| 0 <= i < self.buffers.len() && self.buffers@[i].0@ == name
    }

    proof fn lemma_view_entry(&self, i: int)
        requires
            self.wf(),
            0 <= i < self.buffers.len(),
        ensures
            self@.contains_key(self.buffers@[i].0@),
            self@[self.buffers@[i].0@] == self.buffers@[i].1@,
    {
        let name = self.buffers@[i].0@;
        assert(self.has_name(name));
        let j = self.index_of(name);
        assert(self.buffers@[j].0@ == name);
    }

    /// A map that differs from this one in the buffer at index `i` alone maps the name there
    /// to its own buffer and is otherwise this map.
    proof fn lemma_replace_value(&self, i: int)
        requires
            self.wf(),
            0 <= i < self.buffers.len(),
        ensures
            forall|post: BufferMap|
                #![trigger post@]
                #![trigger post.wf()]
                post.buffers@.len() == self.buffers@.len() && post.buffers@[i].0 == self.buffers@[i].0
                    && (forall|j: int| 0 <= j < self.buffers.len() && j != i ==> post.buffers@[j] == self.buffers@[j])
                    ==> post.wf() && post@ == self@.insert(self.buffers@[i].0@, post.buffers@[i].1@),
    {
        let name = self.buffers@[i].0@;
        assert forall|post: BufferMap|
            post.buffers@.len() == self.buffers@.len() && post.buffers@[i].0 == self.buffers@[i].0
                && (forall|j: int| 0 <= j < self.buffers.len() && j != i ==> post.buffers@[j] == self.buffers@[j])
                implies post.wf() && post@ == self@.insert(name, post.buffers@[i].1@) by {
            assert forall|a: int, c: int|
                0 <= a < post.buffers.len() && 0 <= c < post.buffers.len() && a != c
                    implies #[trigger] post.buffers@[a].0@ != #[trigger] post.buffers@[c].0@ by {
                assert(post.buffers@[a].0 == self.buffers@[a].0);
                assert(post.buffers@[c].0 == self.buffers@[c].0);
            }
            let v = post.buffers@[i].1@;
            assert forall|k: Seq<char>| #[trigger] post@.contains_key(k) <==> self@.insert(name, v).contains_key(k) by {
                if post@.contains_key(k) {
                    let j = post.index_of(k);
                    assert(post.buffers@[j].0 == self.buffers@[j].0);
                    self.lemma_view_entry(j);
                }
                if self@.contains_key(k) {
                    let j = self.index_of(k);
                    assert(post.buffers@[j].0 == self.buffers@[j].0);
                    post.lemma_view_entry(j);
                }
                if k == name {
                    post.lemma_view_entry(i);
                }
            }
            assert forall|k: Seq<char>| #[trigger] post@.contains_key(k) implies post@[k] == self@.insert(name, v)[k] by {
                let j = post.index_of(k);
                post.lemma_view_entry(j);
                if j != i {
                    self.lemma_view_entry(j);
                }
            }
            assert(post@ =~= self@.insert(name, v));
        }
    }

    /// The index of `name`, or `None` where it does not occur.
    fn find(&self, name: &String) -> (r: Option<usize>)
        requires
            self.wf(),
        ensures
            match r {
                Some(i) => i < self.buffers.len() && self.buffers@[i as int].0@ == name@,
                None => !self@.contains_key(name@),
            },
    {
        let mut i: usize = 0;
        while i < self.buffers.len()
            invariant
                i <= self.buffers.len(),
                forall|j: int| 0 <= j < i ==> self.buffers@[j].0@ != name@,
            decreases self.buffers.len() - i,
        {
            if self.buffers[i].0 == *name {
                return Some(i);
            }
            i = i + 1;
        }
        None
    }

    /// A map with no buffers.
    pub fn new() -> (m: BufferMap)
        ensures
            m.wf(),
            m@ == Map::<Seq<char>, Seq<Seq<char>>>::empty(),
    {
        let m = BufferMap { buffers: Vec::new() };
        proof {
            assert(m@ =~= Map::<Seq<char>, Seq<Seq<char>>>::empty());
        }
        m
    }

    /// Puts `buf` under a copy of `name`, handing back the buffer it replaces.
    pub fn add_buffer(&mut self, name: &String, buf: FileBuffer) -> (r: Option<FileBuffer>)
        requires
            old(self).wf(),
        ensures
            final(self).wf(),
            final(self)@ == old(self)@.insert(name@, buf@),
            match r {
                Some(b) => old(self)@.contains_key(name@) && b@ == old(self)@[name@],
                None => !old(self)@.contains_key(name@),
            },
    {
        self.add_buffer_owned(name.clone(), buf)
    }

    /// Puts `buf` under `name`, handing back the buffer it replaces.
    pub fn add_buffer_owned(&mut self, name: String, buf: FileBuffer) -> (r: Option<FileBuffer>)
        requires
            old(self).wf(),
        ensures
            final(self).wf(),
            final(self)@ == old(self)@.insert(name@, buf@),
            match r {
                Some(b) => old(self)@.contains_key(name@) && b@ == old(self)@[name@],
                None => !old(self)@.contains_key(name@),
            },
    {
        let ghost pre = *self;
        let ghost b_view = buf@;
        match self.find(&name) {
            Some(i) => {
                proof {
                    pre.lemma_view_entry(i as int);
                }
                let mut old_buf = buf;
                std::mem::swap(&mut self.buffers[i].1, &mut old_buf);
                proof {
                    assert(self.wf()) by {
                        assert forall|a: int, c: int|
                            0 <= a < self.buffers.len() && 0 <= c < self.buffers.len() && a != c
                                implies #[trigger] self.buffers@[a].0@ != #[trigger] self.buffers@[c].0@ by {
                            assert(self.buffers@[a].0 == pre.buffers@[a].0);
                            assert(self.buffers@[c].0 == pre.buffers@[c].0);
                        }
                    }
                    assert forall|k: Seq<char>| #[trigger] self@.contains_key(k) <==> pre@.insert(name@, b_view).contains_key(k) by {
                        if self@.contains_key(k) {
                            let j = self.index_of(k);
                            pre.lemma_view_entry(j);
                        }
                        if pre@.contains_key(k) {
                            let j = pre.index_of(k);
                            self.lemma_view_entry(j);
                        }
                        if k == name@ {
                            self.lemma_view_entry(i as int);
                        }
                    }
                    assert forall|k: Seq<char>| #[trigger] self@.contains_key(k) implies self@[k] == pre@.insert(name@, b_view)[k] by {
                        let j = self.index_of(k);
                        self.lemma_view_entry(j);
                        if j != i {
                            pre.lemma_view_entry(j);
                        }
                    }
                    assert(self@ =~= pre@.insert(name@, b_view));
                }
                Some(old_buf)
            },
            None => {
                self.buffers.push((name, buf));
                proof {
                    let n = pre.buffers.len() as int;
                    assert forall|j: int| 0 <= j < n implies pre.buffers@[j].0@ != name@ by {
                        if pre.buffers@[j].0@ == name@ {
                            pre.lemma_view_entry(j);
                        }
                    }
                    assert(self.wf());
                    assert forall|k: Seq<char>| #[trigger] self@.contains_key(k) <==> pre@.insert(name@, b_view).contains_key(k) by {
                        if self@.contains_key(k) {
                            let j = self.index_of(k);
                            if j < n {
                                pre.lemma_view_entry(j);
                            }
                        }
                        if pre@.contains_key(k) {
                            let j = pre.index_of(k);
                            self.lemma_view_entry(j);
                        }
                        if k == name@ {
                            self.lemma_view_entry(n);
                        }
                    }
                    assert forall|k: Seq<char>| #[trigger] self@.contains_key(k) implies self@[k] == pre@.insert(name@, b_view)[k] by {
                        let j = self.index_of(k);
                        self.lemma_view_entry(j);
                        if j < n {
                            pre.lemma_view_entry(j);
                        }
                    }
                    assert(self@ =~= pre@.insert(name@, b_view));
                }
                None
            },
        }
    }

    /// Takes the buffer under `name` out of the map.
    pub fn rm_buffer(&mut self, name: &String) -> (r: Option<FileBuffer>)
        requires
            old(self).wf(),
        ensures
            final(self).wf(),
            final(self)@ == old(self)@.remove(name@),
            match r {
                Some(b) => old(self)@.contains_key(name@) && b@ == old(self)@[name@],
                None => !old(self)@.contains_key(name@),
            },
    {
        let ghost pre = *self;
        match self.find(name) {
            Some(i) => {
                proof {
                    pre.lemma_view_entry(i as int);
                }
                let (_, b) = self.buffers.remove(i);
                proof {
                    let n = pre.buffers.len() as int;
                    assert forall|j: int| 0 <= j < n - 1 implies #[trigger] self.buffers@[j] == pre.buffers@[
                        if j < i { j } else { j + 1 }
                    ] by {}
                    assert(self.wf()) by {
                        assert forall|a: int, c: int|
                            0 <= a < self.buffers.len() && 0 <= c < self.buffers.len() && a != c
                                implies #[trigger] self.buffers@[a].0@ != #[trigger] self.buffers@[c].0@ by {
                            let a2 = if a < i { a } else { a + 1 };
                            let c2 = if c < i { c } else { c + 1 };
                            assert(self.buffers@[a] == pre.buffers@[a2]);
                            assert(self.buffers@[c] == pre.buffers@[c2]);
                        }
                    }
                    assert forall|k: Seq<char>| #[trigger] self@.contains_key(k) <==> pre@.remove(name@).contains_key(k) by {
                        if self@.contains_key(k) {
                            let j = self.index_of(k);
                            let j2 = if j < i { j } else { j + 1 };
                            assert(self.buffers@[j] == pre.buffers@[j2]);
                            pre.lemma_view_entry(j2);
                            assert(j2 != i);
                        }
                        if pre@.contains_key(k) && k != name@ {
                            let j = pre.index_of(k);
                            assert(j != i);
                            let j2 = if j < i { j } else { j - 1 };
                            assert(self.buffers@[j2] == pre.buffers@[j]);
                            self.lemma_view_entry(j2);
                        }
                    }
                    assert forall|k: Seq<char>| #[trigger] self@.contains_key(k) implies self@[k] == pre@.remove(name@)[k] by {
                        let j = self.index_of(k);
                        self.lemma_view_entry(j);
                        let j2 = if j < i { j } else { j + 1 };
                        assert(self.buffers@[j] == pre.buffers@[j2]);
                        pre.lemma_view_entry(j2);
                    }
                    assert(self@ =~= pre@.remove(name@));
                }
                Some(b)
            },
            None => {
                proof {
                    assert(self@ =~= pre@.remove(name@));
                }
                None
            },
        }
    }

    /// The buffer under `name`.
    pub fn get_buffer(&self, name: &String) -> (r: Option<&FileBuffer>)
        requires
            self.wf(),
        ensures
            match r {
                Some(b) => self@.contains_key(name@) && b@ == self@[name@],
                None => !self@.contains_key(name@),
            },
    {
        match self.find(name) {
            Some(i) => {
                proof {
                    self.lemma_view_entry(i as int);
                }
                Some(&self.buffers[i].1)
            },
            None => None,
        }
    }

    /// The buffer under `name`, for writing.
    pub fn get_mut_buffer(&mut self, name: &String) -> (r: Option<&mut FileBuffer>)
        requires
            old(self).wf(),
        ensures
            final(self).wf(),
            match r {
                Some(b) => {
                    &&& old(self)@.contains_key(name@)
                    &&& b@ == old(self)@[name@]
                    &&& final(self)@ == old(self)@.insert(name@, final(b)@)
                },
                None => !old(self)@.contains_key(name@) && final(self)@ == old(self)@,
            },
    {
        match self.find(name) {
            Some(i) => {
                proof {
                    self.lemma_view_entry(i as int);
                    self.lemma_replace_value(i as int);
                }
                Some(&mut self.buffers[i].1)
            },
            None => None,
        }
    }
}

impl View for BufferMap {
    type V = Map<Seq<char>, Seq<Seq<char>>>;

    /// Each name mapped to the lines of its buffer.
    closed spec fn view(&self) -> Map<Seq<char>, Seq<Seq<char>>> {
        Map::new(|name: Seq<char>| self.has_name(name), |name: Seq<char>| self.buffers@[self.index_of(name)].1@)
    }
}

} // verus!
