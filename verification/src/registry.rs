//! What the resolver's caller needs to talk to the registry: where a
//! package's document lies, and what an answer's status means.

use vstd::prelude::*;

verus! {

/// Why the document of a package could not be had.
#[derive(Clone, Copy, Debug, PartialEq, Eq, Structural)]
pub enum RegistryError {
    /// The registry could not be reached or did not answer properly.
    RegistryUnavailable,
    /// The registry has no such package.
    RegistryNotFound,
    /// The answer is not a document of the expected shape.
    RegistryDecodeError,
}

/// The address of the public registry, up to the package's name.
pub open spec fn registry_base() -> Seq<char> {
    "https://registry.npmjs.org/"@
}

/// Where the document of `package` lies.
pub fn package_url(package: &str) -> (url: String)
    ensures
        url@ == registry_base() + package@,
{
    let mut url = String::from_str("https://registry.npmjs.org/");
    url.append(package);
    url
}

/// What a status code says of an answer: success for 200 to 299, an absent
/// package for 404, and an unavailable registry for every other code.
pub open spec fn status_meaning(status: u16) -> Result<(), RegistryError> {
    if 200 <= status <= 299 {
        Ok(())
    } else if status == 404 {
        Err(RegistryError::RegistryNotFound)
    } else {
        Err(RegistryError::RegistryUnavailable)
    }
}

/// What the status code of an answer says.
pub fn check_status(status: u16) -> (r: Result<(), RegistryError>)
    ensures
        r == status_meaning(status),
{
    if status >= 200 && status <= 299 {
        Ok(())
    } else if status == 404 {
        Err(RegistryError::RegistryNotFound)
    } else {
        Err(RegistryError::RegistryUnavailable)
    }
}

} // verus!
