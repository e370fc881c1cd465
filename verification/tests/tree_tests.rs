use dreamcoder::stow::tree::StowTree;

#[test]
fn test_tree_insert() {
    let mut tree = StowTree::new("/target".to_string());

    tree.insert(".config/nvim/init.lua", "nvim");
    tree.insert(".config/git/config", "git");
    tree.insert(".zshrc", "shell");

    let files = tree.get_files();
    assert_eq!(files.len(), 3);
}

#[test]
fn test_detect_overlaps() {
    let mut tree = StowTree::new("/target".to_string());

    tree.insert(".config/shared/config", "package1");
    tree.insert(".config/shared/config", "package2");

    let overlaps = tree.detect_overlaps();
    assert_eq!(overlaps.len(), 1);
    assert_eq!(overlaps[0].packages.len(), 2);
}

#[test]
fn files_carry_paths_and_packages() {
    let mut tree = StowTree::new("/target".to_string());
    tree.insert(".config/nvim/init.lua", "nvim");
    tree.insert(".config/nvim/init.lua", "nvim");
    tree.insert(".zshrc", "shell");
    let files = tree.get_files();
    assert_eq!(files.len(), 2);
    assert!(files.contains(&("/target/.config/nvim/init.lua".to_string(), "nvim".to_string())));
    assert!(files.contains(&("/target/.zshrc".to_string(), "shell".to_string())));
    assert_eq!(tree.detect_overlaps().len(), 0);
}

#[test]
fn a_file_under_a_file_is_not_reported() {
    let mut tree = StowTree::new("/target".to_string());
    tree.insert("a", "one");
    tree.insert("a/b", "two");
    let files = tree.get_files();
    assert_eq!(files, vec![("/target/a".to_string(), "one".to_string())]);
}

#[test]
fn overlaps_name_every_package() {
    let mut tree = StowTree::new("/t".to_string());
    tree.insert("x/shared", "p1");
    tree.insert("x/shared", "p2");
    tree.insert("x/shared", "p3");
    tree.insert("x/own", "p1");
    let overlaps = tree.detect_overlaps();
    assert_eq!(overlaps.len(), 1);
    assert_eq!(overlaps[0].path, "/t/x/shared");
    assert_eq!(overlaps[0].packages, vec!["p1".to_string(), "p2".to_string(), "p3".to_string()]);
    assert_eq!(tree.get_files().len(), 4);
}

#[test]
fn an_empty_path_inserts_nothing() {
    let mut tree = StowTree::new("/t".to_string());
    tree.insert("", "p");
    assert_eq!(tree.get_files().len(), 0);
    tree.insert("./", "p");
    assert_eq!(tree.get_files(), vec![("/t/.".to_string(), "p".to_string())]);
}

#[test]
fn each_file_is_listed_once() {
    let mut tree = StowTree::new("/target".to_string());
    tree.insert(".config/nvim/init.lua", "nvim");
    tree.insert(".config/git/config", "git");
    tree.insert(".zshrc", "shell");
    tree.insert(".config/nvim/init.lua", "nvim");
    let files = tree.get_files();
    assert_eq!(files.len(), 3);
    for i in 0..files.len() {
        for j in 0..files.len() {
            if i != j {
                assert_ne!(files[i], files[j]);
            }
        }
    }
    assert!(files.contains(&("/target/.config/git/config".to_string(), "git".to_string())));
}

#[test]
fn a_path_from_the_root_can_repeat_a_file() {
    let mut tree = StowTree::new("/t".to_string());
    tree.insert("/t/a", "p");
    tree.insert("a", "p");
    let files = tree.get_files();
    assert_eq!(files.len(), 2);
    assert_eq!(files[0], ("/t/a".to_string(), "p".to_string()));
    assert_eq!(files[0], files[1]);
}

#[test]
fn inserting_keeps_earlier_files() {
    let mut tree = StowTree::new("/target".to_string());
    tree.insert(".config/nvim/init.lua", "nvim");
    tree.insert(".config/nvim/lua/plugins.lua", "nvim");
    tree.insert(".config/nvim/init.lua", "other");
    let files = tree.get_files();
    assert!(files.contains(&("/target/.config/nvim/init.lua".to_string(), "nvim".to_string())));
    assert!(files.contains(&("/target/.config/nvim/init.lua".to_string(), "other".to_string())));
    assert!(files.contains(&("/target/.config/nvim/lua/plugins.lua".to_string(), "nvim".to_string())));
    let overlaps = tree.detect_overlaps();
    assert_eq!(overlaps.len(), 1);
    assert_eq!(overlaps[0].path, "/target/.config/nvim/init.lua");
}

#[test]
fn a_series_of_inserts_gives_each_file_once() {
    let mut tree = StowTree::new("/r".to_string());
    tree.insert("a/x", "p");
    tree.insert("a/y", "q");
    tree.insert("b", "p");
    tree.insert("a/x", "q");
    let files = tree.get_files();
    assert_eq!(files.len(), 4);
    for f in [("/r/a/x", "p"), ("/r/a/y", "q"), ("/r/b", "p"), ("/r/a/x", "q")] {
        assert!(files.contains(&(f.0.to_string(), f.1.to_string())));
    }
    let overlaps = tree.detect_overlaps();
    assert_eq!(overlaps.len(), 1);
    assert_eq!(overlaps[0].path, "/r/a/x");
    assert_eq!(overlaps[0].packages, vec!["p".to_string(), "q".to_string()]);
}
