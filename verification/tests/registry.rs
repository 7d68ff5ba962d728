use kirbo::registry::{check_status, package_url, RegistryError};

#[test]
fn package_url_appends_the_name() {
    assert_eq!(package_url("prettier"), "https://registry.npmjs.org/prettier");
    assert_eq!(package_url("@babel/core"), "https://registry.npmjs.org/@babel/core");
    assert_eq!(package_url(""), "https://registry.npmjs.org/");
}

#[test]
fn status_codes_mean_success_absence_or_failure() {
    assert_eq!(check_status(200), Ok(()));
    assert_eq!(check_status(204), Ok(()));
    assert_eq!(check_status(299), Ok(()));
    assert_eq!(check_status(404), Err(RegistryError::RegistryNotFound));
    assert_eq!(check_status(199), Err(RegistryError::RegistryUnavailable));
    assert_eq!(check_status(300), Err(RegistryError::RegistryUnavailable));
    assert_eq!(check_status(403), Err(RegistryError::RegistryUnavailable));
    assert_eq!(check_status(500), Err(RegistryError::RegistryUnavailable));
    assert_eq!(check_status(0), Err(RegistryError::RegistryUnavailable));
}
