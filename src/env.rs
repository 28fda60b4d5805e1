use vstd::prelude::*;
use crate::lexer::same_chars;

verus! {

/// Variable bindings: each name is bound to the value last assigned to it.
pub struct Env {
    vars: Vec<(String, i32)>,
    model: Ghost<Map<Seq<char>, i32>>,
}

impl View for Env {
    type V = Map<Seq<char>, i32>;

    closed spec fn view(&self) -> Map<Seq<char>, i32> {
        self.model@
    }
}

impl Env {
    /// Names are unique, and the bindings are exactly those of the model.
    pub closed spec fn wf(&self) -> bool {
        &&& forall|i: int, j: int|
            0 <= i < j < self.vars@.len() ==> (#[trigger] self.vars@[i]).0@ != (
            #[trigger] self.vars@[j]).0@
        &&& forall|i: int|
            0 <= i < self.vars@.len() ==> self.model@.contains_key((#[trigger] self.vars@[i]).0@)
                && self.model@[self.vars@[i].0@] == self.vars@[i].1
        &&& forall|k: Seq<char>|
            #[trigger] self.model@.contains_key(k) ==> exists|i: int|
                0 <= i < self.vars@.len() && (#[trigger] self.vars@[i]).0@ == k
    }

    /// An environment with no bindings.
    pub fn new() -> (e: Env)
        ensures
            e.wf(),
            e@ == Map::<Seq<char>, i32>::empty(),
    {
        Env { vars: Vec::new(), model: Ghost(Map::empty()) }
    }

    /// Where `name` is bound in `vars`, if it is.
    fn find(&self, name: &str) -> (r: Option<usize>)
        requires
            self.wf(),
        ensures
            match r {
                Some(i) => i < self.vars@.len() && self.vars@[i as int].0@ == name@,
                None => !self@.contains_key(name@),
            },
    {
        let mut i: usize = 0;
        while i < self.vars.len()
            invariant
                self.wf(),
                i <= self.vars@.len(),
                forall|k: int| 0 <= k < i ==> (#[trigger] self.vars@[k]).0@ != name@,
            decreases self.vars@.len() - i,
        {
            if same_chars(self.vars[i].0.as_str(), name) {
                return Some(i);
            }
            i += 1;
        }
        None
    }

    /// The value bound to `name`, if any.
    pub fn get(&self, name: &str) -> (r: Option<i32>)
        requires
            self.wf(),
        ensures
            r == if self@.contains_key(name@) {
                Some(self@[name@])
            } else {
                None::<i32>
            },
    {
        match self.find(name) {
            Some(i) => Some(self.vars[i].1),
            None => None,
        }
    }

    /// Binds `name` to `value`, replacing any earlier binding.
    pub fn set(&mut self, name: String, value: i32)
        requires
            old(self).wf(),
        ensures
            final(self).wf(),
            final(self)@ == old(self)@.insert(name@, value),
    {
        let ghost key = name@;
        let found = self.find(name.as_str());
        match found {
            Some(i) => {
                self.vars.set(i, (name, value));
            },
            None => {
                self.vars.push((name, value));
            },
        }
        self.model = Ghost(self.model@.insert(key, value));
        proof {
            let at = match found {
                Some(i) => i as int,
                None => self.vars@.len() - 1,
            };
            assert(self.vars@[at].0@ == key);
            assert forall|k: Seq<char>| #[trigger] self.model@.contains_key(k) implies exists|i: int|
                0 <= i < self.vars@.len() && (#[trigger] self.vars@[i]).0@ == k by {
                if k != key {
                    let i = choose|i: int|
                        0 <= i < old(self).vars@.len() && (#[trigger] old(self).vars@[i]).0@ == k;
                    assert(self.vars@[i].0@ == k);
                } else {
                    assert(self.vars@[at].0@ == k);
                }
            }
        }
    }

    /// A copy of these bindings.
    pub fn snapshot(&self) -> (e: Env)
        requires
            self.wf(),
        ensures
            e.wf(),
            e@ == self@,
    {
        let mut vars: Vec<(String, i32)> = Vec::new();
        let mut i: usize = 0;
        while i < self.vars.len()
            invariant
                self.wf(),
                i <= self.vars@.len(),
                vars@ == self.vars@.subrange(0, i as int),
            decreases self.vars@.len() - i,
        {
            let name = self.vars[i].0.clone();
            vars.push((name, self.vars[i].1));
            proof {
                assert(vars@ =~= self.vars@.subrange(0, i + 1));
            }
            i += 1;
        }
        proof {
            assert(vars@ =~= self.vars@);
        }
        let e = Env { vars, model: Ghost(self.model@) };
        assert(e.vars@ == self.vars@);
        e
    }
}

} // verus!
