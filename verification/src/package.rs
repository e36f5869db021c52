//! What a package file is: the release it holds and where it lies.

use vstd::prelude::*;

verus! {

/// The release that a package file holds: a package name and a version.
///
/// A version is an opaque token. It has no order of its own: two versions are
/// ordered only by the comparator that is handed in.
#[derive(Debug, PartialEq, Eq, Hash)]
pub struct PackageIdentity {
    pub name: String,
    pub version: String,
}

/// A `PackageIdentity` as a value of specifications.
pub ghost struct PackageIdentityView {
    pub name: Seq<char>,
    pub version: Seq<char>,
}

impl View for PackageIdentity {
    type V = PackageIdentityView;

    open spec fn view(&self) -> PackageIdentityView {
        PackageIdentityView { name: self.name@, version: self.version@ }
    }
}

impl DeepView for PackageIdentity {
    type V = PackageIdentityView;

    open spec fn deep_view(&self) -> PackageIdentityView {
        self@
    }
}

impl Clone for PackageIdentity {
    fn clone(&self) -> (copy: Self)
        ensures
            copy == *self,
    {
        PackageIdentity { name: self.name.clone(), version: self.version.clone() }
    }
}

/// One file of the cache that holds a package.
#[derive(Debug, PartialEq, Eq, Hash)]
pub struct PackageFile {
    pub identity: PackageIdentity,
    pub path: String,
}

/// A `PackageFile` as a value of specifications.
pub ghost struct PackageFileView {
    pub identity: PackageIdentityView,
    pub path: Seq<char>,
}

impl View for PackageFile {
    type V = PackageFileView;

    open spec fn view(&self) -> PackageFileView {
        PackageFileView { identity: self.identity@, path: self.path@ }
    }
}

impl DeepView for PackageFile {
    type V = PackageFileView;

    open spec fn deep_view(&self) -> PackageFileView {
        self@
    }
}

impl Clone for PackageFile {
    fn clone(&self) -> (copy: Self)
        ensures
            copy == *self,
    {
        PackageFile { identity: self.identity.clone(), path: self.path.clone() }
    }
}

} // verus!
