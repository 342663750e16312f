use crate::text::{decimal, join, join_path, push_decimal, push_two_digits};
use std::collections::HashMap;
use vstd::prelude::*;
use vstd::string::StringExecFns;

verus! {

broadcast use vstd::std_specs::hash::group_hash_axioms;

/// Paths configured for one year.
#[derive(Debug, Default)]
pub struct Paths {
    /// Path to input files.
    pub input_files: Option<String>,
    /// Path to this year's implementation directory.
    pub implementation: Option<String>,
    /// Path to this year's day template files.
    pub day_template: Option<String>,
}

/// The tool configuration.
#[derive(Debug, Default)]
pub struct Config {
    /// Session cookie.
    pub session: String,
    /// Paths are configured independently per year.
    pub paths: HashMap<u32, Paths>,
}


/// `name` for `day`: `input-DD.txt`, the day padded to two digits.
pub open spec fn input_name(day: u8) -> Seq<char> {
    "input-"@ + (if day < 10 { seq!['0'] + decimal(day as nat) } else { decimal(day as nat) }) + ".txt"@
}

impl Config {
    pub open spec fn implementation_spec(&self, year: u32, current_dir: Seq<char>) -> Seq<char> {
        if self.paths@.contains_key(year) && self.paths@[year].implementation is Some {
            self.paths@[year].implementation.unwrap()@
        } else {
            current_dir
        }
    }

    pub open spec fn input_files_spec(&self, year: u32, current_dir: Seq<char>) -> Seq<char> {
        if self.paths@.contains_key(year) && self.paths@[year].input_files is Some {
            self.paths@[year].input_files.unwrap()@
        } else {
            join_path(self.implementation_spec(year, current_dir), "inputs"@)
        }
    }

    /// Path to the implementation directory for `year`; `current_dir` when none is
    /// configured.
    pub fn implementation(&self, year: u32, current_dir: &str) -> (r: String)
        ensures
            r@ == self.implementation_spec(year, current_dir@),
    {
        match self.paths.get(&year) {
            Some(p) => match &p.implementation {
                Some(path) => path.clone(),
                None => String::from_str(current_dir),
            },
            None => String::from_str(current_dir),
        }
    }

    /// Path to the input files directory for `year`; when none is configured, the `inputs`
    /// folder of that year's implementation directory.
    pub fn input_files(&self, year: u32, current_dir: &str) -> (r: String)
        ensures
            r@ == self.input_files_spec(year, current_dir@),
    {
        match self.paths.get(&year) {
            Some(p) => match &p.input_files {
                Some(path) => {
                    return path.clone();
                },
                None => {},
            },
            None => {},
        }
        let base = self.implementation(year, current_dir);
        proof {
            reveal_strlit("inputs");
        }
        join(base.as_str(), "inputs")
    }

    /// Path to the input file of one day.
    pub fn input_for(&self, year: u32, day: u8, current_dir: &str) -> (r: String)
        ensures
            r@ == join_path(self.input_files_spec(year, current_dir@), input_name(day)),
    {
        let dir = self.input_files(year, current_dir);
        let mut name = String::from_str("input-");
        push_two_digits(&mut name, day as u64);
        name.append(".txt");
        join(dir.as_str(), name.as_str())
    }

    /// Path to the template applied for each day of `year`; when none is configured,
    /// `<data_dir>/<year>/day-template`.
    pub fn day_template(&self, year: u32, data_dir: &str) -> (r: String)
        ensures
            self.paths@.contains_key(year) && self.paths@[year].day_template is Some ==> r@
                == self.paths@[year].day_template.unwrap()@,
            !(self.paths@.contains_key(year) && self.paths@[year].day_template is Some) ==> r@ == join_path(
                join_path(data_dir@, decimal(year as nat)),
                "day-template"@,
            ),
    {
        match self.paths.get(&year) {
            Some(p) => match &p.day_template {
                Some(path) => {
                    return path.clone();
                },
                None => {},
            },
            None => {},
        }
        let mut y = String::new();
        push_decimal(&mut y, year as u64);
        proof {
            assert(y@ =~= decimal(year as nat));
        }
        let dir = join(data_dir, y.as_str());
        join(dir.as_str(), "day-template")
    }

    /// Take the paths of `year` out of the map, or empty ones.
    fn take_paths(&mut self, year: u32) -> (r: Paths)
        ensures
            final(self).session == old(self).session,
            final(self).paths@ == old(self).paths@.remove(year),
            old(self).paths@.contains_key(year) ==> r == old(self).paths@[year],
            !old(self).paths@.contains_key(year) ==> r.input_files is None && r.implementation is None && r.day_template is None,
    {
        match self.paths.remove(&year) {
            Some(p) => p,
            None => Paths { input_files: None, implementation: None, day_template: None },
        }
    }

    /// Set the input files directory for `year`.
    pub fn set_input_files(&mut self, year: u32, path: String)
        ensures
            final(self).session == old(self).session,
            final(self).paths@.dom() == old(self).paths@.dom().insert(year),
            forall|y: u32| y != year && old(self).paths@.contains_key(y) ==> final(self).paths@[y] == old(self).paths@[y],
            final(self).paths@[year].input_files == Some(path),
            old(self).paths@.contains_key(year) ==> final(self).paths@[year].implementation == old(self).paths@[year].implementation
                && final(self).paths@[year].day_template == old(self).paths@[year].day_template,
            !old(self).paths@.contains_key(year) ==> final(self).paths@[year].implementation is None
                && final(self).paths@[year].day_template is None,
    {
        let mut p = self.take_paths(year);
        p.input_files = Some(path);
        self.paths.insert(year, p);
        proof {
            assert(self.paths@.dom() =~= old(self).paths@.dom().insert(year));
        }
    }

    /// Set the implementation directory for `year`.
    pub fn set_implementation(&mut self, year: u32, path: String)
        ensures
            final(self).session == old(self).session,
            final(self).paths@.dom() == old(self).paths@.dom().insert(year),
            forall|y: u32| y != year && old(self).paths@.contains_key(y) ==> final(self).paths@[y] == old(self).paths@[y],
            final(self).paths@[year].implementation == Some(path),
            old(self).paths@.contains_key(year) ==> final(self).paths@[year].input_files == old(self).paths@[year].input_files
                && final(self).paths@[year].day_template == old(self).paths@[year].day_template,
            !old(self).paths@.contains_key(year) ==> final(self).paths@[year].input_files is None
                && final(self).paths@[year].day_template is None,
    {
        let mut p = self.take_paths(year);
        p.implementation = Some(path);
        self.paths.insert(year, p);
        proof {
            assert(self.paths@.dom() =~= old(self).paths@.dom().insert(year));
        }
    }

    /// Set the day template directory for `year`.
    pub fn set_day_template(&mut self, year: u32, path: String)
        ensures
            final(self).session == old(self).session,
            final(self).paths@.dom() == old(self).paths@.dom().insert(year),
            forall|y: u32| y != year && old(self).paths@.contains_key(y) ==> final(self).paths@[y] == old(self).paths@[y],
            final(self).paths@[year].day_template == Some(path),
            old(self).paths@.contains_key(year) ==> final(self).paths@[year].input_files == old(self).paths@[year].input_files
                && final(self).paths@[year].implementation == old(self).paths@[year].implementation,
            !old(self).paths@.contains_key(year) ==> final(self).paths@[year].input_files is None
                && final(self).paths@[year].implementation is None,
    {
        let mut p = self.take_paths(year);
        p.day_template = Some(path);
        self.paths.insert(year, p);
        proof {
            assert(self.paths@.dom() =~= old(self).paths@.dom().insert(year));
        }
    }
}

} // verus!
