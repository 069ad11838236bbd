//! The manifest: named modules and the two directories each one ties together.

use vstd::prelude::*;

verus! {

/// The two directories of a module: `from` holds the real files, `to` is the
/// root under which the links are made.
#[derive(Debug, Clone)]
pub struct LinkLocation {
    pub from: String,
    pub to: String,
}

/// What a manifest may write for a module's location: both directories, or
/// only the link root.
#[derive(Debug)]
pub enum Location {
    Full(LinkLocation),
    Paritial(String),
}

/// One named module of the manifest.
#[derive(Debug)]
pub struct ModuleConfig {
    pub name: String,
    pub deps: Option<Vec<String>>,
    pub location: Location,
}

/// The manifest root.
#[derive(Debug)]
pub struct PackageConfig {
    pub modules: Vec<ModuleConfig>,
}

impl ModuleConfig {
    /// The directory that holds the module's real files: the declared `from`,
    /// or the module's own name where only the link root was declared.
    pub open spec fn source(&self) -> Seq<char> {
        match self.location {
            Location::Full(location) => location.from@,
            Location::Paritial(_) => self.name@,
        }
    }

    /// The directory under which the module's links are made.
    pub open spec fn link_root(&self) -> Seq<char> {
        match self.location {
            Location::Full(location) => location.to@,
            Location::Paritial(to) => to@,
        }
    }

    /// Resolves the declared location into the pair of directories.
    pub fn get_link_location(&self) -> (location: LinkLocation)
        ensures
            location.from@ == self.source(),
            location.to@ == self.link_root(),
    {
        match &self.location {
            Location::Full(full) => LinkLocation { from: full.from.clone(), to: full.to.clone() },
            Location::Paritial(to) => LinkLocation { from: self.name.clone(), to: to.clone() },
        }
    }
}

} // verus!
