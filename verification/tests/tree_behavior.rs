use configtree::child_path::ChildPath;
use configtree::config::{Config, ensure};
use configtree::config_directory::{ConfigDirOpts, ConfigDirectory};
use configtree::config_file::ConfigFile;
use configtree::errors::ConfigError;
use configtree::fs::Fs;
use configtree::path::ConfigPath;
use configtree::string_format::StringFormat;
use configtree::test_file::TestFile;
use configtree::test_path::{TestPath, TestPathCounter};

fn scratch() -> (Fs, ConfigPath) {
    let mut counter = TestPathCounter::new();
    let tp = TestPath::new(&mut counter);
    (Fs::new(), tp.path)
}

#[test]
fn new_directory() {
    ConfigDirectory::new(ConfigPath::empty().join("test"), StringFormat::new());
}

#[test]
fn insert_file() {
    ConfigDirectory::new(ConfigPath::empty().join("test"), StringFormat::new())
        .file(ConfigFile::new(ConfigPath::empty().join("test.txt"), StringFormat::new()))
        .unwrap();
}

#[test]
fn insert_dir() {
    ConfigDirectory::new(ConfigPath::empty().join("test"), StringFormat::new())
        .dir(ConfigDirectory::new(ConfigPath::empty().join("test"), StringFormat::new()))
        .unwrap();
}

#[test]
fn ensure_parent() {
    let mut counter = TestPathCounter::new();
    let tp = TestPath::new(&mut counter);
    let mut fs = Fs::new();
    let p1 = tp.path.clone();
    let p2 = tp.child_path("test");
    ConfigDirectory::new(p2, StringFormat::new()).write(&mut fs).unwrap();
    assert!(fs.is_dir(&p1));
}

#[test]
fn ensure_self() {
    let (mut fs, p) = scratch();
    ensure(&mut fs, &p).unwrap();
    assert!(fs.is_dir(&p));
}

#[test]
fn ensure_ancestors() {
    let mut counter = TestPathCounter::new();
    let tp = TestPath::new(&mut counter);
    let mut fs = Fs::new();
    let p = tp.child_path("test");
    ensure(&mut fs, &p).unwrap();
    assert!(fs.is_dir(&p));
}

#[test]
fn registration_rejects_nested_paths() {
    let d = ConfigDirectory::new(ConfigPath::empty().join("root"), StringFormat::new());
    let nested = ConfigFile::new(
        ConfigPath::empty().join("sub").join("file.txt"),
        StringFormat::new(),
    );
    assert!(matches!(d.file(nested), Err(ConfigError::InvalidChildPath)));
    let d2 = ConfigDirectory::new(ConfigPath::empty().join("root"), StringFormat::new());
    let nested_dir = ConfigDirectory::new(
        ConfigPath::empty().join("sub").join("inner"),
        StringFormat::new(),
    );
    assert!(matches!(d2.dir(nested_dir), Err(ConfigError::InvalidChildPath)));
}

#[test]
fn children_and_lookup() {
    let d = ConfigDirectory::new(ConfigPath::empty().join("root"), StringFormat::new())
        .file(ConfigFile::new(ConfigPath::empty().join("a.txt"), StringFormat::new()))
        .unwrap()
        .dir(ConfigDirectory::new(ConfigPath::empty().join("s"), StringFormat::new()))
        .unwrap();
    let names = d.children();
    assert_eq!(names.len(), 2);
    assert!(names.iter().any(|n| n == "a.txt"));
    assert!(names.iter().any(|n| n == "s"));
    assert!(d.has_config(&d.path.clone().join("a.txt")));
    assert!(!d.has_config(&d.path.clone().join("b.txt")));
    assert!(d.get("s").is_some());
    assert!(d.get("missing").is_none());
}

#[test]
fn non_recursive_write_skips_contents() {
    let (mut fs, root) = scratch();
    let inner = ConfigFile::new(ConfigPath::empty().join("inner.txt"), StringFormat::new());
    let sub = ConfigDirectory::new(ConfigPath::empty().join("s"), StringFormat::new())
        .file(inner)
        .unwrap();
    let d = ConfigDirectory::new(root.clone(), StringFormat::new()).dir(sub).unwrap();
    d.write(&mut fs).unwrap();
    let sub_path = root.clone().join("s");
    assert!(fs.is_dir(&sub_path));
    assert!(!fs.exists_at(&sub_path.clone().join("inner.txt")));
}

#[test]
fn recursive_write_descends() {
    let (mut fs, root) = scratch();
    let mut inner = ConfigFile::new(ConfigPath::empty().join("inner.txt"), StringFormat::new());
    inner.content = Some(String::from("deep"));
    let sub = ConfigDirectory::new(ConfigPath::empty().join("s"), StringFormat::new())
        .file(inner)
        .unwrap();
    let mut d = ConfigDirectory::new(root.clone(), StringFormat::new()).dir(sub).unwrap();
    d.options = ConfigDirOpts { write_if_defaulted: false, read_new: false, recursive: true };
    d.write(&mut fs).unwrap();
    let file_path = root.clone().join("s").join("inner.txt");
    let tf = TestFile::new(&file_path);
    assert_eq!(tf.read(&fs), "deep");
}

#[test]
fn discovery_reads_new_files() {
    let (mut fs, root) = scratch();
    ensure(&mut fs, &root).unwrap();
    fs.write(&root.clone().join("extra.txt"), b"x".to_vec()).unwrap();
    let mut d = ConfigDirectory::new(root.clone(), StringFormat::new());
    d.options = ConfigDirOpts { write_if_defaulted: false, read_new: true, recursive: false };
    let d = d.read(&mut fs).unwrap();
    match d.get("extra.txt") {
        Some(Config::File(f)) => {
            assert_eq!(f.content.as_ref().unwrap(), "x");
            assert!(!f.defaulted);
        },
        _ => panic!("discovered leaf missing"),
    }
    assert!(!d.defaulted);
}

#[test]
fn discovery_registers_subdirectories() {
    let (mut fs, root) = scratch();
    ensure(&mut fs, &root.clone().join("below")).unwrap();
    let mut d = ConfigDirectory::new(root.clone(), StringFormat::new());
    d.options = ConfigDirOpts { write_if_defaulted: false, read_new: true, recursive: false };
    let d = d.read(&mut fs).unwrap();
    assert!(matches!(d.get("below"), Some(Config::Directory(_))));
}

#[test]
fn end_to_end_defaulted_then_written() {
    let (mut fs, root) = scratch();
    let leaf = ConfigFile::new(ConfigPath::empty().join("a.txt"), StringFormat::new())
        .def(String::from("hello"));
    let mut d = ConfigDirectory::new(root.clone(), StringFormat::new()).file(leaf).unwrap();
    d.options = ConfigDirOpts { write_if_defaulted: false, read_new: false, recursive: true };
    let d = d.read(&mut fs).unwrap();
    match d.get("a.txt") {
        Some(Config::File(f)) => {
            assert_eq!(f.content.as_ref().unwrap(), "hello");
            assert!(f.defaulted);
        },
        _ => panic!("registered leaf missing"),
    }
    assert!(d.defaulted);
    d.write(&mut fs).unwrap();
    let tf = TestFile::new(&root.clone().join("a.txt"));
    assert_eq!(tf.read(&fs), "hello");
}

#[test]
fn directory_defaulted_aggregates() {
    let (mut fs, root) = scratch();
    let with_default = ConfigFile::new(ConfigPath::empty().join("a.txt"), StringFormat::new())
        .def(String::from("d"));
    let d = ConfigDirectory::new(root.clone(), StringFormat::new()).file(with_default).unwrap();
    let d = d.read(&mut fs).unwrap();
    assert!(d.defaulted);
}

#[test]
fn ensure_over_file_fails() {
    let (mut fs, root) = scratch();
    ensure(&mut fs, &root).unwrap();
    let file_path = root.clone().join("occupied");
    fs.write(&file_path, b"data".to_vec()).unwrap();
    let r = ensure(&mut fs, &file_path.clone().join("deeper"));
    assert!(matches!(r, Err(ConfigError::NotADirectory)));
}

#[test]
fn test_directory_creates() {
    let (mut fs, root) = scratch();
    let td = configtree::test_directory::TestDirectory::new(&root);
    td.create(&mut fs).unwrap();
    assert!(fs.is_dir(&td.path));
    let below = td.child_path("nested");
    assert!(!fs.is_dir(&below));
}

#[test]
fn child_path_appends_one_component() {
    let p = ConfigPath::empty().join("a");
    let c = configtree::child_path::child_path(&p, "b.txt");
    assert_eq!(c, ConfigPath::empty().join("a").join("b.txt"));
    assert_eq!(c.len(), 2);
}

#[test]
fn missing_file_reads_not_found() {
    let fs = Fs::new();
    let r = fs.read(&ConfigPath::empty().join("absent.txt"));
    assert!(matches!(r, Err(ConfigError::NotFound)));
}
