use shader_language::names::{get_file_name, get_file_name_ext};

#[test]
fn stem_strips_the_extension() {
    assert_eq!(get_file_name("main.vert"), "main");
    assert_eq!(get_file_name("main.frag"), "main");
}

#[test]
fn stem_of_a_path_is_taken_from_its_last_component() {
    assert_eq!(get_file_name("src/shaders/main.vert"), "main");
    assert_eq!(get_file_name_ext("src/shaders/main.vert"), "main.vert");
}

#[test]
fn name_with_extension_is_the_last_component() {
    assert_eq!(get_file_name_ext("main.vert"), "main.vert");
    assert_eq!(get_file_name_ext("a/b/c"), "c");
}

#[test]
fn stem_without_a_dot_is_the_whole_name() {
    assert_eq!(get_file_name("Makefile"), "Makefile");
    assert_eq!(get_file_name("dir.d/Makefile"), "Makefile");
}

#[test]
fn leading_dot_name_is_its_own_stem() {
    assert_eq!(get_file_name(".gitignore"), ".gitignore");
    assert_eq!(get_file_name("conf/.gitignore"), ".gitignore");
}

#[test]
fn only_the_last_dot_cuts() {
    assert_eq!(get_file_name("archive.tar.gz"), "archive.tar");
    assert_eq!(get_file_name("a."), "a");
}

#[test]
fn empty_and_trailing_slash() {
    assert_eq!(get_file_name_ext(""), "");
    assert_eq!(get_file_name_ext("dir/"), "");
    assert_eq!(get_file_name("dir/"), "");
}
