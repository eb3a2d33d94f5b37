//! A snapshot of the process environment, handed in by the caller so that
//! everything computed from it stays deterministic and checkable.

use vstd::prelude::*;

verus! {

/// The home directory as the account database reported it, used when
/// `HOME` is not set to a Unicode value.
#[derive(Clone, Debug)]
pub enum HomeFallback {
    /// The account's home directory.
    Dir(String),
    /// The account has a home directory, but its name is not valid Unicode.
    NotUnicode,
    /// No home directory could be determined.
    Unknown,
}

/// Why no home directory is available.
#[derive(Copy, Clone, Debug, PartialEq, Eq, Structural)]
pub enum HomeDirError {
    Unknown,
    NotUnicode,
}

/// The environment snapshot: each variable's value (`None` when the value
/// is set but not valid Unicode), and the account database's home entry.
pub struct Env {
    /// The variables, first binding wins.
    pub vars: Vec<(String, Option<String>)>,
    /// The home directory from the account database, used when `HOME` is
    /// not set.
    pub fallback_home: HomeFallback,
}

impl Env {
    /// The binding a lookup finds: the first entry with the given name.
    pub open spec fn spec_lookup(vars: Seq<(String, Option<String>)>, name: Seq<char>) -> Option<
        Option<String>,
    >
        decreases vars.len(),
    {
        if vars.len() == 0 {
            None
        } else if vars[0].0@ == name {
            Some(vars[0].1)
        } else {
            Self::spec_lookup(vars.skip(1), name)
        }
    }

    /// Looks a variable up; `None` when unset, `Some(None)` when set but not
    /// valid Unicode.
    pub fn lookup(&self, name: &String) -> (r: Option<Option<String>>)
        ensures
            r == Self::spec_lookup(self.vars@, name@),
    {
        let n = self.vars.len();
        let mut i: usize = 0;
        proof {
            assert(self.vars@.skip(0) =~= self.vars@);
        }
        while i < n
            invariant
                i <= n,
                n == self.vars@.len(),
                Self::spec_lookup(self.vars@, name@) == Self::spec_lookup(
                    self.vars@.skip(i as int),
                    name@,
                ),
            decreases n - i,
        {
            proof {
                assert(self.vars@.skip(i as int)[0] == self.vars@[i as int]);
                assert(self.vars@.skip(i as int).skip(1) =~= self.vars@.skip(i as int + 1));
            }
            if self.vars[i].0 == *name {
                let v = match &self.vars[i].1 {
                    Some(s) => Some(s.clone()),
                    None => None,
                };
                return Some(v);
            }
            i = i + 1;
        }
        proof {
            assert(self.vars@.skip(n as int) =~= Seq::<(String, Option<String>)>::empty());
        }
        None
    }

    /// The home directory this snapshot yields: `HOME` when set to a
    /// Unicode value, else the account database entry.
    pub open spec fn spec_home_dir(self) -> Result<Seq<char>, HomeDirError> {
        match Self::spec_lookup(self.vars@, "HOME"@) {
            Some(Some(h)) => Ok(h@),
            _ => match self.fallback_home {
                HomeFallback::Dir(h) => Ok(h@),
                HomeFallback::NotUnicode => Err(HomeDirError::NotUnicode),
                HomeFallback::Unknown => Err(HomeDirError::Unknown),
            },
        }
    }

    /// Resolves the home directory, exactly as `spec_home_dir` reads it.
    pub fn home_dir(&self) -> (r: Result<String, HomeDirError>)
        ensures
            r matches Ok(h) ==> self.spec_home_dir() == Ok::<Seq<char>, HomeDirError>(h@),
            r matches Err(e) ==> self.spec_home_dir() == Err::<Seq<char>, HomeDirError>(e),
    {
        let home_name = String::from_str("HOME");
        match self.lookup(&home_name) {
            Some(Some(h)) => Ok(h),
            _ => match &self.fallback_home {
                HomeFallback::Dir(h) => Ok(h.clone()),
                HomeFallback::NotUnicode => Err(HomeDirError::NotUnicode),
                HomeFallback::Unknown => Err(HomeDirError::Unknown),
            },
        }
    }
}

} // verus!
