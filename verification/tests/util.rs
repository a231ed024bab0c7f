use overlord::path::Path;
use overlord::util::PathWrapper;

#[test]
fn wrapper_gives_back_its_path() {
    let wrapper = PathWrapper::new(Path::new("/find_me/level"));
    assert_eq!(*wrapper.get(), Path::new("/find_me/level"));
    assert_eq!(wrapper.get().display(), "/find_me/level");
}

#[test]
fn wrapper_from_str_is_in_normal_form() {
    let wrapper = PathWrapper::from_str("/find_me/level/1/");
    assert_eq!(wrapper.get().display(), "/find_me/level/1");
    assert_eq!(wrapper, PathWrapper::new(Path::new("/find_me/./level/1")));
}

#[test]
fn wrappers_of_different_paths_differ() {
    assert!(PathWrapper::from_str("/a") != PathWrapper::from_str("/a/b"));
    assert!(PathWrapper::from_str("/a") != PathWrapper::from_str("a"));
}
