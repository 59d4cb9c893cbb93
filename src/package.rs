use vstd::prelude::*;

verus! {

/// A package record: its name, its version and a line of description.
#[derive(Debug, Clone)]
pub struct Package {
    pub name: String,
    pub version: String,
    pub description: String,
}

/// The mathematical value of a package record.
pub struct PackageView {
    pub name: Seq<char>,
    pub version: Seq<char>,
    pub description: Seq<char>,
}

impl View for Package {
    type V = PackageView;

    open spec fn view(&self) -> PackageView {
        PackageView { name: self.name@, version: self.version@, description: self.description@ }
    }
}

impl Package {
    pub fn new(name: &str, version: &str, description: &str) -> (r: Package)
        ensures
            r@ == (PackageView { name: name@, version: version@, description: description@ }),
    {
        Package {
            name: name.to_owned(),
            version: version.to_owned(),
            description: description.to_owned(),
        }
    }

    /// A record with the same name, version and description.
    pub fn duplicate(&self) -> (r: Package)
        ensures
            r@ == self@,
    {
        Package {
            name: self.name.clone(),
            version: self.version.clone(),
            description: self.description.clone(),
        }
    }
}

} // verus!
