//! Sensor values and named collections of them.
use vstd::prelude::*;
use crate::float32::Float32;
use crate::text::same_text;

verus! {

/// One value of a sensor group or of a command's configuration.
#[derive(Clone, Copy, Debug)]
pub enum SensorValue {
    Bool(bool),
    U8(u8),
    U16(u16),
    U32(u32),
    I8(i8),
    I16(i16),
    F32(Float32),
    /// The single-precision quotient `num / den`.
    Ratio { num: i32, den: u32 },
}

/// Values by name. Each name occurs once.
pub struct SensorMap {
    entries: Vec<(String, SensorValue)>,
}

/// `name` stands at `i`.
spec fn names_at(entries: Seq<(String, SensorValue)>, name: Seq<char>, i: int) -> bool {
    0 <= i < entries.len() && entries[i].0@ == name
}

spec fn named(entries: Seq<(String, SensorValue)>, name: Seq<char>) -> bool {
    exists|i: int| names_at(entries, name, i)
}

spec fn place_of(entries: Seq<(String, SensorValue)>, name: Seq<char>) -> int {
    choose|i: int| names_at(entries, name, i)
}

impl View for SensorMap {
    type V = Map<Seq<char>, SensorValue>;

    closed spec fn view(&self) -> Map<Seq<char>, SensorValue> {
        Map::new(
            |name: Seq<char>| named(self.entries@, name),
            |name: Seq<char>| self.entries@[place_of(self.entries@, name)].1,
        )
    }
}

impl SensorMap {
    /// No name occurs twice.
    pub closed spec fn wf(&self) -> bool {
        forall|i: int, j: int|
            0 <= i < j < self.entries@.len() ==> #[trigger] self.entries@[i].0@
                != #[trigger] self.entries@[j].0@
    }

    /// An empty map.
    pub fn new() -> (m: SensorMap)
        ensures
            m.wf(),
            m@ == Map::<Seq<char>, SensorValue>::empty(),
    {
        let m: SensorMap = SensorMap { entries: Vec::new() };
        proof {
            assert forall|name: Seq<char>| !m@.dom().contains(name) by {
                assert(forall|i: int| !names_at(m.entries@, name, i));
            }
            assert(m@ =~= Map::<Seq<char>, SensorValue>::empty());
        }
        m
    }

    proof fn lemma_at(&self, name: Seq<char>, i: int)
        requires
            self.wf(),
            names_at(self.entries@, name, i),
        ensures
            self@.dom().contains(name),
            self@[name] == self.entries@[i].1,
    {
        assert(named(self.entries@, name));
        let j = place_of(self.entries@, name);
        assert(names_at(self.entries@, name, j));
        if i < j {
            assert(self.entries@[i].0@ != self.entries@[j].0@);
        } else if j < i {
            assert(self.entries@[j].0@ != self.entries@[i].0@);
        }
    }

    /// Where `name` stands, or the number of entries.
    fn find(&self, name: &str) -> (r: usize)
        ensures
            r <= self.entries@.len(),
            r < self.entries@.len() ==> names_at(self.entries@, name@, r as int),
            r == self.entries@.len() ==> !named(self.entries@, name@),
    {
        let mut i: usize = 0;
        while i < self.entries.len()
            invariant
                i <= self.entries@.len(),
                forall|j: int| 0 <= j < i ==> !names_at(self.entries@, name@, j),
            decreases self.entries.len() - i,
        {
            if same_text(self.entries[i].0.as_str(), name) {
                return i;
            }
            i = i + 1;
        }
        assert(forall|j: int| !names_at(self.entries@, name@, j));
        i
    }

    /// The value under `name`, if there is one.
    pub fn get(&self, name: &str) -> (r: Option<SensorValue>)
        requires
            self.wf(),
        ensures
            r == (if self@.dom().contains(name@) {
                Some(self@[name@])
            } else {
                None
            }),
    {
        let i: usize = self.find(name);
        if i < self.entries.len() {
            proof {
                self.lemma_at(name@, i as int);
            }
            Some(self.entries[i].1)
        } else {
            None
        }
    }

    /// Puts `value` under `name`, in place of what was there.
    pub fn set(&mut self, name: &str, value: SensorValue)
        requires
            old(self).wf(),
        ensures
            final(self).wf(),
            final(self)@ == old(self)@.insert(name@, value),
            final(self).names() == (if old(self)@.dom().contains(name@) {
                old(self).names()
            } else {
                old(self).names().push(name@)
            }),
    {
        let ghost before = *self;
        let i: usize = self.find(name);
        if i < self.entries.len() {
            let kept: String = self.entries[i].0.clone();
            self.entries.set(i, (kept, value));
            proof {
                let ghost after = *self;
                assert(after.wf()) by {
                    assert forall|a: int, b: int| 0 <= a < b < after.entries@.len() implies
                        #[trigger] after.entries@[a].0@ != #[trigger] after.entries@[b].0@ by {
                        assert(before.entries@[a].0@ != before.entries@[b].0@);
                    }
                }
                assert forall|n: Seq<char>| named(after.entries@, n) == named(before.entries@, n) by {
                    if named(after.entries@, n) {
                        let j = place_of(after.entries@, n);
                        assert(names_at(after.entries@, n, j));
                        assert(names_at(before.entries@, n, j));
                    }
                    if named(before.entries@, n) {
                        let j = place_of(before.entries@, n);
                        assert(names_at(before.entries@, n, j));
                        assert(names_at(after.entries@, n, j));
                    }
                }
                assert(named(before.entries@, name@));
                assert forall|n: Seq<char>| #[trigger] after@.dom().contains(n) implies after@[n]
                    == before@.insert(name@, value)[n] by {
                    let j = place_of(before.entries@, n);
                    assert(named(before.entries@, n));
                    assert(names_at(before.entries@, n, j));
                    assert(names_at(after.entries@, n, j));
                    after.lemma_at(n, j);
                    before.lemma_at(n, j);
                    if n == name@ {
                        assert(names_at(before.entries@, n, i as int));
                        if i < j {
                            assert(before.entries@[i as int].0@ != before.entries@[j].0@);
                        } else if j < i {
                            assert(before.entries@[j].0@ != before.entries@[i as int].0@);
                        }
                    }
                }
                assert(after@ =~= before@.insert(name@, value));
                assert(after.names() =~= before.names());
            }
        } else {
            self.entries.push((name.to_owned(), value));
            proof {
                let ghost after = *self;
                let last = before.entries@.len() as int;
                assert(after.wf()) by {
                    assert forall|a: int, b: int| 0 <= a < b < after.entries@.len() implies
                        #[trigger] after.entries@[a].0@ != #[trigger] after.entries@[b].0@ by {
                        if b == last {
                            assert(!names_at(before.entries@, name@, a));
                        } else {
                            assert(before.entries@[a].0@ != before.entries@[b].0@);
                        }
                    }
                }
                assert(names_at(after.entries@, name@, last));
                after.lemma_at(name@, last);
                assert forall|n: Seq<char>| n != name@ implies named(after.entries@, n) == named(
                    before.entries@,
                    n,
                ) by {
                    if named(after.entries@, n) {
                        let j = place_of(after.entries@, n);
                        assert(names_at(after.entries@, n, j));
                        assert(names_at(before.entries@, n, j));
                    }
                    if named(before.entries@, n) {
                        let j = place_of(before.entries@, n);
                        assert(names_at(before.entries@, n, j));
                        assert(names_at(after.entries@, n, j));
                    }
                }
                assert forall|n: Seq<char>| #[trigger] after@.dom().contains(n) && n != name@ implies
                    after@[n] == before@[n] by {
                    let j = place_of(before.entries@, n);
                    assert(named(before.entries@, n));
                    assert(names_at(before.entries@, n, j));
                    assert(names_at(after.entries@, n, j));
                    after.lemma_at(n, j);
                    before.lemma_at(n, j);
                }
                assert(after@ =~= before@.insert(name@, value));
                assert(after.names() =~= before.names().push(name@));
            }
        }
    }

    /// The names in the order in which they were first set.
    pub closed spec fn names(&self) -> Seq<Seq<char>> {
        self.entries@.map_values(|e: (String, SensorValue)| e.0@)
    }

    /// The names are those of the map's values, each once.
    pub proof fn law_names_are_the_domain(&self)
        requires
            self.wf(),
        ensures
            self.names().no_duplicates(),
            forall|n: Seq<char>| #[trigger] self@.dom().contains(n) <==> self.names().contains(n),
    {
        assert forall|n: Seq<char>| #[trigger] self@.dom().contains(n) implies self.names().contains(
            n,
        ) by {
            let j = place_of(self.entries@, n);
            assert(named(self.entries@, n));
            assert(names_at(self.entries@, n, j));
            assert(self.names()[j] == n);
        }
        assert forall|n: Seq<char>| #[trigger] self.names().contains(n) implies self@.dom().contains(
            n,
        ) by {
            let j = self.names().index_of(n);
            assert(names_at(self.entries@, n, j));
            self.lemma_at(n, j);
        }
        assert forall|i: int, j: int|
            0 <= i < self.names().len() && 0 <= j < self.names().len() && i
                != j implies self.names()[i] != self.names()[j] by {
            if i < j {
                assert(self.entries@[i].0@ != self.entries@[j].0@);
            } else {
                assert(self.entries@[j].0@ != self.entries@[i].0@);
            }
        }
    }

    /// How many names there are.
    pub fn len(&self) -> (n: usize)
        ensures
            n == self.names().len(),
    {
        self.entries.len()
    }

    /// The `i`-th name and its value.
    pub fn entry(&self, i: usize) -> (r: (&str, SensorValue))
        requires
            self.wf(),
            i < self.names().len(),
        ensures
            r.0@ == self.names()[i as int],
            self@.dom().contains(r.0@),
            r.1 == self@[r.0@],
    {
        proof {
            assert(names_at(self.entries@, self.names()[i as int], i as int));
            self.lemma_at(self.names()[i as int], i as int);
        }
        (self.entries[i].0.as_str(), self.entries[i].1)
    }
}

} // verus!
