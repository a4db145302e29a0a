use extutils::fileop::{
    ancestor_chain, base_name, base_name_or_whole, dir_name, dir_name_or_dot, dirs_to_create,
    parse_temp_pattern, TempName,
};

#[test]
fn base_and_dir_names() {
    assert_eq!(base_name("/a/b/c.txt"), "c.txt");
    assert_eq!(base_name("c.txt"), "c.txt");
    assert_eq!(base_name("/"), "/");
    assert_eq!(base_name("a/.."), "a/..");
    assert_eq!(dir_name("/a/b/c.txt"), "/a/b");
    assert_eq!(dir_name("c.txt"), "");
    assert_eq!(dir_name("/"), ".");
    assert_eq!(dir_name(""), ".");
}

#[test]
fn name_fallbacks() {
    assert_eq!(base_name_or_whole("x/y", None), "x/y");
    assert_eq!(base_name_or_whole("x/y", Some("y".to_string())), "y");
    assert_eq!(dir_name_or_dot(None), ".");
    assert_eq!(dir_name_or_dot(Some("/tmp".to_string())), "/tmp");
}

fn random_parts(t: TempName) -> Option<(String, String, usize)> {
    match t {
        TempName::Random { prefix, suffix, rand_len } => Some((prefix, suffix, rand_len)),
        TempName::Whole => None,
    }
}

#[test]
fn temp_patterns() {
    assert_eq!(
        random_parts(parse_temp_pattern("tmpXXXXXX.log")),
        Some(("tmp".to_string(), ".log".to_string(), 6))
    );
    assert_eq!(random_parts(parse_temp_pattern("XXX")), Some((String::new(), String::new(), 3)));
    assert_eq!(
        random_parts(parse_temp_pattern("aXXX.t\nz")),
        Some(("a".to_string(), ".t".to_string(), 3))
    );
    assert_eq!(random_parts(parse_temp_pattern("tmpXX")), None);
    assert_eq!(random_parts(parse_temp_pattern("abc")), None);
    assert_eq!(random_parts(parse_temp_pattern("")), None);
    assert_eq!(
        random_parts(parse_temp_pattern("aXXbXXXX")),
        None
    );
}

#[test]
fn chains_and_creation_order() {
    let chain = ancestor_chain("/a/b/c");
    assert_eq!(chain, vec!["/a/b/c", "/a/b", "/a"]);
    assert_eq!(ancestor_chain("a"), Vec::<String>::new());
    assert_eq!(ancestor_chain("ab/cd"), vec!["ab/cd", "ab"]);
    let made = dirs_to_create(&chain, &vec![false, false, true]);
    assert_eq!(made, vec!["/a/b", "/a/b/c"]);
    assert_eq!(dirs_to_create(&chain, &vec![true, false, false]), Vec::<String>::new());
    assert_eq!(dirs_to_create(&chain, &vec![false, false, false]), vec!["/a", "/a/b", "/a/b/c"]);
}

#[test]
fn created_dirs_nest_in_order() {
    let chain = ancestor_chain("/x/y/z/w");
    let made = dirs_to_create(&chain, &vec![false, false, false, true]);
    assert_eq!(made, vec!["/x/y", "/x/y/z", "/x/y/z/w"]);
    assert_eq!(made.last().unwrap(), "/x/y/z/w");
    for j in 1..made.len() {
        assert_eq!(dir_name(&made[j]), made[j - 1]);
    }
    assert_eq!(dir_name(&made[0]), "/x");
}

#[test]
fn temp_pattern_parts_rebuild_the_pattern() {
    for p in ["tmpXXXXXX.log", "XXX", "aXXXX", "pre-XXXXsuf\nmore", "bXXXXXXXXc"] {
        let (prefix, suffix, n) = random_parts(parse_temp_pattern(p)).unwrap();
        assert!(n >= 3);
        assert!(!prefix.contains('X'));
        let rebuilt = format!("{}{}{}", prefix, "X".repeat(n), suffix);
        assert!(p.starts_with(&rebuilt), "{}", p);
        assert!(!suffix.contains('\n'));
    }
}
