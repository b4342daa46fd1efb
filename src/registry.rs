use vstd::prelude::*;

verus! {

/// The directory that a list of (name, handle) pairs describes.
pub open spec fn directory<H>(s: Seq<(String, H)>) -> Map<Seq<char>, H>
    decreases s.len(),
{
    if s.len() == 0 {
        Map::empty()
    } else {
        directory(s.drop_last()).insert(s.last().0@, s.last().1)
    }
}

/// No two entries share a name.
pub open spec fn names_unique<H>(s: Seq<(String, H)>) -> bool {
    forall|i: int, j: int|
        0 <= i < s.len() && 0 <= j < s.len() && i != j ==> (#[trigger] s[i]).0@ != (#[trigger] s[j]).0@
}

proof fn lemma_directory<H>(s: Seq<(String, H)>)
    requires
        names_unique(s),
    ensures
        forall|n: Seq<char>|
            #[trigger] directory(s).dom().contains(n) <==> exists|i: int| 0 <= i < s.len() && s[i].0@ == n,
        forall|i: int| 0 <= i < s.len() ==> #[trigger] directory(s)[s[i].0@] == s[i].1,
    decreases s.len(),
{
    if s.len() > 0 {
        let t = s.drop_last();
        assert(names_unique(t));
        lemma_directory(t);
        assert(directory(s) == directory(t).insert(s.last().0@, s.last().1));
        assert forall|n: Seq<char>|
            #[trigger] directory(s).dom().contains(n) <==> exists|i: int| 0 <= i < s.len() && s[i].0@ == n by {
            if directory(s).dom().contains(n) && n != s.last().0@ {
                let i = choose|i: int| 0 <= i < t.len() && t[i].0@ == n;
                assert(s[i].0@ == n);
            }
            if exists|i: int| 0 <= i < s.len() && s[i].0@ == n {
                let i = choose|i: int| 0 <= i < s.len() && s[i].0@ == n;
                if i < t.len() {
                    assert(t[i].0@ == n);
                }
            }
        }
        assert forall|i: int| 0 <= i < s.len() implies #[trigger] directory(s)[s[i].0@] == s[i].1 by {
            if i < t.len() {
                assert(t[i] == s[i]);
                assert(s[i].0@ != s[s.len() - 1].0@);
            }
        }
    }
}

/// The rooms of a server, by name. Names are unique.
pub struct Registry<H> {
    rooms: Vec<(String, H)>,
}

impl<H> View for Registry<H> {
    type V = Map<Seq<char>, H>;

    open spec fn view(&self) -> Map<Seq<char>, H> {
        directory(self.entries())
    }
}

impl<H> Registry<H> {
    pub closed spec fn entries(&self) -> Seq<(String, H)> {
        self.rooms@
    }

    pub open spec fn wf(&self) -> bool {
        names_unique(self.entries())
    }

    pub fn new() -> (r: Registry<H>)
        ensures
            r.wf(),
            r@ == Map::<Seq<char>, H>::empty(),
    {
        Registry { rooms: Vec::new() }
    }

    /// Number of rooms.
    pub fn len(&self) -> (r: usize)
        ensures
            r == self.entries().len(),
    {
        self.rooms.len()
    }

    /// Position of the room called `name`, if there is one.
    fn position(&self, name: &String) -> (r: Option<usize>)
        requires
            self.wf(),
        ensures
            match r {
                Some(i) => i < self.entries().len() && self.entries()[i as int].0@ == name@,
                None => !self@.dom().contains(name@),
            },
    {
        proof {
            lemma_directory(self.rooms@);
        }
        let mut i: usize = 0;
        while i < self.rooms.len()
            invariant
                i <= self.rooms@.len(),
                forall|j: int| 0 <= j < i ==> (#[trigger] self.rooms@[j]).0@ != name@,
            decreases self.rooms@.len() - i,
        {
            if self.rooms[i].0 == *name {
                return Some(i);
            }
            i += 1;
        }
        None
    }

    /// Whether a room is called `name`.
    pub fn contains(&self, name: &String) -> (r: bool)
        requires
            self.wf(),
        ensures
            r == self@.dom().contains(name@),
    {
        proof {
            lemma_directory(self.rooms@);
        }
        self.position(name).is_some()
    }

    /// The room called `name`.
    pub fn lookup(&self, name: &String) -> (r: Option<&H>)
        requires
            self.wf(),
        ensures
            match r {
                Some(h) => self@.dom().contains(name@) && *h == self@[name@],
                None => !self@.dom().contains(name@),
            },
    {
        proof {
            lemma_directory(self.rooms@);
        }
        match self.position(name) {
            Some(i) => Some(&self.rooms[i].1),
            None => None,
        }
    }

    /// Adds room `h` under `name` if no room has that name; returns whether it did.
    pub fn insert_new(&mut self, name: String, h: H) -> (r: bool)
        requires
            old(self).wf(),
        ensures
            final(self).wf(),
            r == !old(self)@.dom().contains(name@),
            r ==> final(self)@ == old(self)@.insert(name@, h),
            !r ==> final(self)@ == old(self)@,
    {
        proof {
            lemma_directory(self.rooms@);
        }
        if self.position(&name).is_some() {
            return false;
        }
        let ghost n = name@;
        self.rooms.push((name, h));
        proof {
            let s = self.rooms@;
            assert(s.drop_last() == old(self).rooms@);
            assert forall|i: int, j: int|
                0 <= i < s.len() && 0 <= j < s.len() && i != j implies (#[trigger] s[i]).0@ != (
                #[trigger] s[j]).0@ by {
                if i == s.len() - 1 && j < s.len() - 1 {
                    assert(s[j] == old(self).rooms@[j]);
                } else if j == s.len() - 1 && i < s.len() - 1 {
                    assert(s[i] == old(self).rooms@[i]);
                }
            }
        }
        true
    }

    /// Removes the room called `name` and returns it; does nothing when there is none.
    pub fn remove(&mut self, name: &String) -> (r: Option<H>)
        requires
            old(self).wf(),
        ensures
            final(self).wf(),
            final(self)@ == old(self)@.remove(name@),
            match r {
                Some(h) => old(self)@.dom().contains(name@) && h == old(self)@[name@],
                None => !old(self)@.dom().contains(name@),
            },
    {
        proof {
            lemma_directory(self.rooms@);
        }
        match self.position(name) {
            None => {
                assert(old(self)@.remove(name@) =~= old(self)@);
                None
            },
            Some(i) => {
                let e = self.rooms.remove(i);
                proof {
                    let s0 = old(self).rooms@;
                    let s = self.rooms@;
                    assert forall|a: int, b: int|
                        0 <= a < s.len() && 0 <= b < s.len() && a != b implies (#[trigger] s[a]).0@
                        != (#[trigger] s[b]).0@ by {
                        let a0 = if a < i { a } else { a + 1 };
                        let b0 = if b < i { b } else { b + 1 };
                        assert(s[a] == s0[a0]);
                        assert(s[b] == s0[b0]);
                    }
                    lemma_directory(s);
                    assert forall|n: Seq<char>| #[trigger] directory(s).dom().contains(n) <==> old(self)@.remove(
                        name@,
                    ).dom().contains(n) by {
                        if directory(s).dom().contains(n) {
                            let a = choose|a: int| 0 <= a < s.len() && s[a].0@ == n;
                            let a0 = if a < i { a } else { a + 1 };
                            assert(s[a] == s0[a0]);
                            assert(a0 != i);
                        }
                        if old(self)@.remove(name@).dom().contains(n) {
                            let a0 = choose|a: int| 0 <= a < s0.len() && s0[a].0@ == n;
                            assert(a0 != i);
                            let a = if a0 < i { a0 } else { a0 - 1 };
                            assert(s[a] == s0[a0]);
                        }
                    }
                    assert forall|n: Seq<char>| #[trigger] directory(s).dom().contains(n) implies directory(s)[n]
                        == old(self)@.remove(name@)[n] by {
                        let a = choose|a: int| 0 <= a < s.len() && s[a].0@ == n;
                        let a0 = if a < i { a } else { a + 1 };
                        assert(s[a] == s0[a0]);
                    }
                    assert(directory(s) =~= old(self)@.remove(name@));
                }
                Some(e.1)
            },
        }
    }
}

} // verus!
