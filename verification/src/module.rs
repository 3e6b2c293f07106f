//! Modules: named functions, with an optional entry point.

use vstd::prelude::*;

use crate::function::Function;

verus! {

/// A module: a collection of functions, each under its own name, and the
/// name of the entry function, if any.
pub struct Module {
    /// The functions, each with its name; no name occurs twice.
    functions: Vec<(String, Function)>,
    /// The name of the entry function.
    entry: Option<String>,
}

/// The index of the first entry named `name`, if any.
pub open spec fn index_of_name(names: Seq<Seq<char>>, name: Seq<char>) -> Option<int> {
    if names.contains(name) {
        Some(names.index_of(name))
    } else {
        None
    }
}

impl Module {
    /// The names of the functions, in the order they were added.
    pub closed spec fn names(&self) -> Seq<Seq<char>> {
        self.functions@.map_values(|p: (String, Function)| p.0@)
    }

    /// The functions, in the order they were added.
    pub closed spec fn funcs(&self) -> Seq<Function> {
        self.functions@.map_values(|p: (String, Function)| p.1)
    }

    /// The name of the entry function, if one is set.
    pub closed spec fn entry_name(&self) -> Option<Seq<char>> {
        match self.entry {
            Some(s) => Some(s@),
            None => None,
        }
    }

    /// Well-formedness: no name occurs twice.
    pub closed spec fn wf(&self) -> bool {
        self.names().no_duplicates()
    }

    /// The function named `name`, if any.
    pub open spec fn lookup(&self, name: Seq<char>) -> Option<Function> {
        match index_of_name(self.names(), name) {
            Some(i) => Some(self.funcs()[i]),
            None => None,
        }
    }

    /// Each function has a name.
    pub proof fn lemma_names_funcs(&self)
        ensures
            self.names().len() == self.funcs().len(),
    {
    }

    /// Create an empty module
    pub fn new() -> (r: Self)
        ensures
            r.wf(),
            r.names().len() == 0,
            r.funcs().len() == 0,
            r.entry_name() is None,
    {
        Module { functions: Vec::new(), entry: None }
    }

    /// Add a function under a name; a function already under that name is
    /// replaced.
    pub fn add_function(&mut self, name: String, func: Function)
        requires
            old(self).wf(),
        ensures
            final(self).wf(),
            final(self).entry_name() == old(self).entry_name(),
            old(self).names().contains(name@) ==> final(self).names() == old(self).names()
                && final(self).funcs() == old(self).funcs().update(old(self).names().index_of(name@), func),
            !old(self).names().contains(name@) ==> final(self).names() == old(self).names().push(name@)
                && final(self).funcs() == old(self).funcs().push(func),
    {
        let ghost names0 = self.names();
        let mut i: usize = 0;
        while i < self.functions.len()
            invariant
                *self == *old(self),
                i <= self.functions@.len(),
                names0 == self.names(),
                self.names().no_duplicates(),
                forall|j: int| 0 <= j < i ==> #[trigger] self.names()[j] != name@,
            decreases self.functions@.len() - i,
        {
            if self.functions[i].0 == name {
                proof {
                    assert(self.names()[i as int] == name@);
                    assert(self.names().index_of(name@) == i as int) by {
                        assert(self.names().contains(name@));
                        let k = self.names().index_of(name@);
                        assert(self.names()[k] == name@);
                        assert(k == i);
                    }
                }
                let ghost before = self.functions@;
                let entry_name = self.functions[i].0.clone();
                self.functions.set(i, (entry_name, func));
                proof {
                    assert(self.names() =~= names0);
                    assert(self.funcs() =~= before.map_values(|p: (String, Function)| p.1).update(i as int, func));
                }
                return;
            }
            i = i + 1;
        }
        proof {
            assert(!names0.contains(name@)) by {
                if names0.contains(name@) {
                    let k = names0.index_of(name@);
                    assert(self.names()[k] != name@);
                }
            }
        }
        let ghost before = self.functions@;
        self.functions.push((name, func));
        proof {
            assert(self.names() =~= names0.push(name@));
            assert(self.funcs() =~= before.map_values(|p: (String, Function)| p.1).push(func));
            assert(self.names().no_duplicates()) by {
                assert forall|a: int, b: int| 0 <= a < b < self.names().len() implies self.names()[a] != self.names()[b] by {
                    if b == names0.len() {
                        assert(names0[a] != name@);
                    } else {
                        assert(names0[a] != names0[b]);
                    }
                }
            }
        }
    }

    /// The index of the function named `name`, if any.
    fn find(&self, name: &str) -> (r: Option<usize>)
        requires
            self.wf(),
        ensures
            r matches Some(i) ==> i < self.names().len() && self.names()[i as int] == name@ && index_of_name(self.names(), name@) == Some(i as int),
            r is None ==> !self.names().contains(name@),
    {
        let target: String = name.to_owned();
        let mut i: usize = 0;
        while i < self.functions.len()
            invariant
                i <= self.functions@.len(),
                target@ == name@,
                self.names().no_duplicates(),
                forall|j: int| 0 <= j < i ==> #[trigger] self.names()[j] != name@,
            decreases self.functions@.len() - i,
        {
            if self.functions[i].0 == target {
                proof {
                    assert(self.names()[i as int] == name@);
                    assert(self.names().contains(name@));
                    let k = self.names().index_of(name@);
                    assert(self.names()[k] == name@);
                }
                return Some(i);
            }
            i = i + 1;
        }
        None
    }

    /// Get the function with the given name
    pub fn get_function(&self, name: &str) -> (r: Option<&Function>)
        requires
            self.wf(),
        ensures
            match self.lookup(name@) {
                Some(f) => r == Some(&f),
                None => r is None,
            },
    {
        match self.find(name) {
            Some(i) => Some(&self.functions[i].1),
            None => None,
        }
    }

    /// Number of functions in the module
    pub fn function_count(&self) -> (r: usize)
        ensures
            r == self.names().len(),
    {
        self.functions.len()
    }

    /// Set the name of the entry function
    pub fn set_entry(&mut self, name: String)
        ensures
            final(self).entry_name() == Some(name@),
            final(self).names() == old(self).names(),
            final(self).funcs() == old(self).funcs(),
            final(self).wf() == old(self).wf(),
    {
        self.entry = Some(name);
    }

    /// Get the entry function, if the entry is set and names a function
    pub fn entry_function(&self) -> (r: Option<&Function>)
        requires
            self.wf(),
        ensures
            match self.entry_name() {
                Some(n) => match self.lookup(n) {
                    Some(f) => r == Some(&f),
                    None => r is None,
                },
                None => r is None,
            },
    {
        match &self.entry {
            Some(n) => self.get_function(n.as_str()),
            None => None,
        }
    }

    /// The functions with their names, in the order they were added
    pub fn functions(&self) -> (r: &Vec<(String, Function)>)
        ensures
            r@.map_values(|p: (String, Function)| p.0@) == self.names(),
            r@.map_values(|p: (String, Function)| p.1) == self.funcs(),
    {
        &self.functions
    }
}

} // verus!
