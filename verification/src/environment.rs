//! The shell's variable table. Assignments are always exported, so every
//! `set` is also recorded in an export log that the surrounding process can
//! replay into its real environment.

use vstd::prelude::*;

verus! {

/// The environment variables the parser reads and writes, with the log of
/// assignments made since the log was last drained.
pub struct Env {
    vars: vstd::hash_map::StringHashMap<String>,
    log: Vec<(String, String)>,
}

impl Env {
    /// The variable table as a map from name to value.
    pub closed spec fn map_view(&self) -> Map<Seq<char>, Seq<char>> {
        Map::new(|k: Seq<char>| self.vars@.contains_key(k), |k: Seq<char>| self.vars@[k]@)
    }

    /// The assignments made since the log was last drained, oldest first.
    pub closed spec fn log_view(&self) -> Seq<(Seq<char>, Seq<char>)> {
        self.log@.map_values(|p: (String, String)| (p.0@, p.1@))
    }

    pub fn new() -> (r: Env)
        ensures
            r.map_view() == Map::<Seq<char>, Seq<char>>::empty(),
            r.log_view() == Seq::<(Seq<char>, Seq<char>)>::empty(),
    {
        let r = Env { vars: vstd::hash_map::StringHashMap::new(), log: Vec::new() };
        proof {
            assert(r.map_view() =~= Map::<Seq<char>, Seq<char>>::empty());
            assert(r.log_view() =~= Seq::<(Seq<char>, Seq<char>)>::empty());
        }
        r
    }

    /// The value of the variable, or `None` where it is unset.
    pub fn get(&self, name: &str) -> (r: Option<&String>)
        ensures
            match r {
                Some(v) => self.map_view().contains_key(name@) && v@ == self.map_view()[name@],
                None => !self.map_view().contains_key(name@),
            },
    {
        self.vars.get(name)
    }

    /// Sets the variable and records the assignment in the export log.
    pub fn set(&mut self, name: String, value: String)
        ensures
            final(self).map_view() == old(self).map_view().insert(name@, value@),
            final(self).log_view() == old(self).log_view().push((name@, value@)),
    {
        let pair = (name.clone(), value.clone());
        self.vars.insert(name, value);
        self.log.push(pair);
        proof {
            assert(final(self).map_view() =~= old(self).map_view().insert(
                pair.0@,
                pair.1@,
            ));
            assert(final(self).log_view() =~= old(self).log_view().push((pair.0@, pair.1@)));
        }
    }

    /// Hands out and clears the export log: the assignments not yet applied
    /// to the process environment.
    pub fn drain_exports(&mut self) -> (r: Vec<(String, String)>)
        ensures
            r@.map_values(|p: (String, String)| (p.0@, p.1@)) == old(self).log_view(),
            final(self).map_view() == old(self).map_view(),
            final(self).log_view() == Seq::<(Seq<char>, Seq<char>)>::empty(),
    {
        let mut out: Vec<(String, String)> = Vec::new();
        core::mem::swap(&mut out, &mut self.log);
        proof {
            assert(final(self).log_view() =~= Seq::<(Seq<char>, Seq<char>)>::empty());
            assert(final(self).map_view() =~= old(self).map_view());
        }
        out
    }
}

} // verus!
