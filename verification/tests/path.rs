use overlord::path::Path;

#[test]
fn path_text_of_plain_paths() {
    assert_eq!(Path::new("/find_me/woot.txt").display(), "/find_me/woot.txt");
    assert_eq!(Path::new("folder/bar.txt").display(), "folder/bar.txt");
    assert_eq!(Path::new("/").display(), "/");
    assert_eq!(Path::new("name").display(), "name");
}

#[test]
fn path_empty_text_is_the_current_directory() {
    assert_eq!(Path::new("").display(), ".");
    assert_eq!(Path::new(".").display(), ".");
    assert_eq!(Path::new("./").display(), ".");
    assert_eq!(Path::new("").depth(), 0);
    assert_eq!(Path::new("").is_absolute(), false);
}

#[test]
fn path_drops_empty_components_and_dots() {
    assert_eq!(Path::new("/find_me/level/1/").display(), "/find_me/level/1");
    assert_eq!(Path::new("//a///b//").display(), "/a/b");
    assert_eq!(Path::new("/a/./b/.").display(), "/a/b");
    assert_eq!(Path::new("./a/./b").display(), "a/b");
    assert_eq!(Path::new("a/.b/..c").display(), "a/.b/..c");
    assert_eq!(Path::new("a/.../b").display(), "a/.../b");
}

#[test]
fn path_dot_dot_cancels_the_component_before_it() {
    assert_eq!(Path::new("/a/b/../c").display(), "/a/c");
    assert_eq!(Path::new("a/b/../../c").display(), "c");
    assert_eq!(Path::new("a/..").display(), ".");
    assert_eq!(Path::new("/a/..").display(), "/");
}

#[test]
fn path_dot_dot_at_the_root_is_dropped() {
    assert_eq!(Path::new("/..").display(), "/");
    assert_eq!(Path::new("/../../a").display(), "/a");
    assert_eq!(Path::new("/a/../../b").display(), "/b");
}

#[test]
fn path_dot_dot_in_front_of_a_relative_path_is_kept() {
    assert_eq!(Path::new("..").display(), "..");
    assert_eq!(Path::new("../..").display(), "../..");
    assert_eq!(Path::new("../a").display(), "../a");
    assert_eq!(Path::new("a/../../b").display(), "../b");
    assert_eq!(Path::new("../a/..").display(), "..");
    assert_eq!(Path::new("../a/../..").display(), "../..");
}

#[test]
fn path_two_texts_of_one_place_are_equal() {
    assert_eq!(Path::new("/a/b"), Path::new("/a/b/"));
    assert_eq!(Path::new("/a/b"), Path::new("//a/./x/../b"));
    assert!(Path::new("/a/b") != Path::new("a/b"));
    assert!(Path::new("/a/b") != Path::new("/a/c"));
    assert!(Path::new("/a/b") != Path::new("/a"));
    assert!(Path::new("/a/b") != Path::new("/a/bb"));
}

#[test]
fn path_text_names_the_same_path_again() {
    for text in ["/", ".", "..", "../..", "../a", "a", "a/b", "/a", "/a/b/c", "/a.b/c d"] {
        let path = Path::new(text);
        assert_eq!(path.display(), text);
        assert_eq!(Path::new(&path.display()), path);
    }
}

#[test]
fn path_clone_is_equal() {
    let path = Path::new("/a/b/c");
    let copy = path.clone();
    assert_eq!(copy, path);
    assert_eq!(copy.display(), "/a/b/c");
}

#[test]
fn path_depth_counts_components() {
    assert_eq!(Path::new("/").depth(), 0);
    assert_eq!(Path::new("/a").depth(), 1);
    assert_eq!(Path::new("/a/b/c/").depth(), 3);
    assert_eq!(Path::new("../..").depth(), 2);
}

#[test]
fn path_is_absolute_goes_by_the_first_character() {
    assert!(Path::new("/a").is_absolute());
    assert!(Path::new("/").is_absolute());
    assert!(Path::new("//a").is_absolute());
    assert_eq!(Path::new("a/").is_absolute(), false);
    assert_eq!(Path::new("./a").is_absolute(), false);
    assert_eq!(Path::new("../a").is_absolute(), false);
}

#[test]
fn path_join_continues_the_base() {
    let base = Path::new("/test/simple");
    assert_eq!(base.join(&Path::new("files/*.txt")).display(), "/test/simple/files/*.txt");
    assert_eq!(base.join(&Path::new("nested/overlord.toml")).display(), "/test/simple/nested/overlord.toml");
    assert_eq!(base.join(&Path::new(".")).display(), "/test/simple");
    assert_eq!(base.join(&Path::new("")).display(), "/test/simple");
    assert_eq!(Path::new("a").join(&Path::new("b")).display(), "a/b");
    assert_eq!(Path::new("").join(&Path::new("b")).display(), "b");
    assert_eq!(Path::new("/").join(&Path::new("b")).display(), "/b");
}

#[test]
fn path_join_with_an_absolute_path_gives_that_path() {
    let base = Path::new("/test/simple");
    assert_eq!(base.join(&Path::new("/etc/x")).display(), "/etc/x");
    assert_eq!(Path::new("rel").join(&Path::new("/")).display(), "/");
}

#[test]
fn path_join_takes_up_dot_dot() {
    let base = Path::new("/test/simple");
    assert_eq!(base.join(&Path::new("../overlord.toml")).display(), "/test/overlord.toml");
    assert_eq!(base.join(&Path::new("../../..")).display(), "/");
    assert_eq!(Path::new("a").join(&Path::new("../..")).display(), "..");
    assert_eq!(Path::new("..").join(&Path::new("..")).display(), "../..");
    assert_eq!(Path::new("../a").join(&Path::new("../b")).display(), "../b");
}

#[test]
fn path_join_makes_a_relative_path_absolute() {
    let cwd = Path::new("/work");
    assert_eq!(cwd.join(&Path::new("test/simple/overlord.toml")).display(), "/work/test/simple/overlord.toml");
    assert_eq!(cwd.join(&Path::new("/abs/overlord.toml")).display(), "/abs/overlord.toml");
}

#[test]
fn path_dir_path_removes_the_last_component() {
    assert_eq!(Path::new("/test/simple/overlord.toml").dir_path().display(), "/test/simple");
    assert_eq!(Path::new("/overlord.toml").dir_path().display(), "/");
    assert_eq!(Path::new("a/b").dir_path().display(), "a");
    assert_eq!(Path::new("overlord.toml").dir_path().display(), ".");
}

#[test]
fn path_dir_path_of_paths_that_are_their_own_directory() {
    assert_eq!(Path::new("/").dir_path().display(), "/");
    assert_eq!(Path::new(".").dir_path().display(), ".");
    assert_eq!(Path::new("..").dir_path().display(), "..");
    assert_eq!(Path::new("../..").dir_path().display(), "../..");
}

#[test]
fn path_is_ancestor_of_paths_below_it() {
    assert!(Path::new("/a").is_ancestor_of(&Path::new("/a/b/file.txt")));
    assert!(Path::new("/a/b").is_ancestor_of(&Path::new("/a/b/file.txt")));
    assert!(Path::new("/").is_ancestor_of(&Path::new("/a/b/file.txt")));
    assert!(Path::new("/").is_ancestor_of(&Path::new("/")));
    assert!(Path::new("a").is_ancestor_of(&Path::new("a/b")));
}

#[test]
fn path_is_ancestor_of_itself() {
    for text in ["/", ".", "..", "/a/b", "a/b", "../a"] {
        assert!(Path::new(text).is_ancestor_of(&Path::new(text)));
    }
}

#[test]
fn path_is_not_ancestor_of_paths_beside_or_above_it() {
    assert_eq!(Path::new("/a/b").is_ancestor_of(&Path::new("/a")), false);
    assert_eq!(Path::new("/a/b").is_ancestor_of(&Path::new("/a/c/b")), false);
    assert_eq!(Path::new("/bar").is_ancestor_of(&Path::new("/foo/xfoo.txt")), false);
    assert_eq!(Path::new("/foo").is_ancestor_of(&Path::new("/foobar/x")), false);
    assert_eq!(Path::new("/a/b/c").is_ancestor_of(&Path::new("/a/b")), false);
}

#[test]
fn path_absolute_and_relative_are_never_above_each_other() {
    assert_eq!(Path::new("/a").is_ancestor_of(&Path::new("a/b")), false);
    assert_eq!(Path::new("a").is_ancestor_of(&Path::new("/a/b")), false);
    assert_eq!(Path::new("/").is_ancestor_of(&Path::new(".")), false);
    assert_eq!(Path::new(".").is_ancestor_of(&Path::new("/")), false);
}

#[test]
fn path_current_directory_is_above_what_does_not_leave_it() {
    assert!(Path::new(".").is_ancestor_of(&Path::new("a/b")));
    assert!(Path::new(".").is_ancestor_of(&Path::new(".")));
    assert_eq!(Path::new(".").is_ancestor_of(&Path::new("../a")), false);
    assert_eq!(Path::new("a").is_ancestor_of(&Path::new(".")), false);
}

#[test]
fn path_parent_directories_are_above_relative_paths() {
    assert!(Path::new("..").is_ancestor_of(&Path::new("a")));
    assert!(Path::new("..").is_ancestor_of(&Path::new(".")));
    assert!(Path::new("../..").is_ancestor_of(&Path::new("..")));
    assert!(Path::new("../..").is_ancestor_of(&Path::new("../a")));
    assert_eq!(Path::new("../a").is_ancestor_of(&Path::new("../b")), false);
    assert_eq!(Path::new("../a").is_ancestor_of(&Path::new("..")), false);
}

#[test]
fn path_ancestors_of_one_path_nest() {
    let below = Path::new("/a/b/c/file.txt");
    let roots = ["/", "/a", "/a/b", "/a/b/c"];
    for (i, shallow) in roots.iter().enumerate() {
        for deep in roots.iter().skip(i) {
            let shallow = Path::new(shallow);
            let deep = Path::new(deep);
            assert!(shallow.is_ancestor_of(&below));
            assert!(deep.is_ancestor_of(&below));
            assert!(shallow.depth() <= deep.depth());
            assert!(shallow.is_ancestor_of(&deep));
        }
    }
}
