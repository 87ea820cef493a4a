use configtree::config::ensure;
use configtree::config_file::{ConfigFile, ConfigFileOpts};
use configtree::errors::ConfigError;
use configtree::fs::Fs;
use configtree::path::ConfigPath;
use configtree::string_format::StringFormat;
use configtree::test_file::TestFile;
use configtree::test_path::{TestPath, TestPathCounter};

fn leaf_setup() -> (Fs, ConfigPath) {
    let mut counter = TestPathCounter::new();
    let tp = TestPath::new(&mut counter);
    let mut fs = Fs::new();
    ensure(&mut fs, &tp.path.parent()).unwrap();
    (fs, tp.path)
}

#[test]
fn new_config() {
    ConfigFile::new(ConfigPath::empty().join("test.txt"), StringFormat::new());
}

#[test]
fn read() {
    let (mut fs, p) = leaf_setup();
    let f = TestFile::new(&p);
    let s = String::from("Hello, world!");
    let mut c: ConfigFile<StringFormat> = ConfigFile::new(p.clone(), StringFormat::new());
    f.write(&mut fs, &s).unwrap();
    c = c.read(&mut fs).unwrap();
    assert_eq!(c.content.unwrap().as_str(), s);
}

#[test]
fn write() {
    let (mut fs, p) = leaf_setup();
    let f = TestFile::new(&p);
    let s = String::from("Hello, world!");
    let mut c: ConfigFile<StringFormat> = ConfigFile::new(p.clone(), StringFormat::new());
    c.content = Some(s.clone());
    c.write(&mut fs).unwrap();
    assert_eq!(f.read(&fs), s);
}

#[test]
fn defaults() {
    let (mut fs, p) = leaf_setup();
    let s = String::from("Hello, world!");
    let c = ConfigFile::new(p.clone(), StringFormat::new()).def(s.clone()).read(&mut fs).unwrap();
    assert_eq!(c.content.unwrap(), s);
}

#[test]
fn defaulted() {
    let (mut fs, p) = leaf_setup();
    let c = ConfigFile::new(p.clone(), StringFormat::new())
        .def(String::from("Hello, world!"))
        .read(&mut fs)
        .unwrap();
    assert_eq!(c.defaulted, true);
}

#[test]
fn not_defaulted() {
    let (mut fs, p) = leaf_setup();
    let f = TestFile::new(&p);
    let s = String::from("Hello, world!");
    let mut c = ConfigFile::new(p.clone(), StringFormat::new()).def(s.clone());
    f.write(&mut fs, &s).unwrap();
    c = c.read(&mut fs).unwrap();
    assert_eq!(c.defaulted, false);
}

#[test]
fn write_if_defaulted() {
    let (mut fs, p) = leaf_setup();
    let f = TestFile::new(&p);
    let s = String::from("Hello, world!");
    ConfigFile::new(p.clone(), StringFormat::new())
        .def(s.clone())
        .opt(ConfigFileOpts { write_if_defaulted: true })
        .read(&mut fs)
        .unwrap();
    assert_eq!(f.read(&fs), s);
}

#[test]
fn round_trip_fresh_leaf() {
    let (mut fs, p) = leaf_setup();
    let s = String::from("payload");
    let mut c = ConfigFile::new(p.clone(), StringFormat::new());
    c.content = Some(s.clone());
    c.write(&mut fs).unwrap();
    let fresh = ConfigFile::new(p.clone(), StringFormat::new())
        .def(String::from("other"))
        .read(&mut fs)
        .unwrap();
    assert_eq!(fresh.content.unwrap(), s);
    assert!(!fresh.defaulted);
}

#[test]
fn read_decode_failure() {
    let (mut fs, p) = leaf_setup();
    fs.write(&p, vec![0xff, 0xfe]).unwrap();
    let r = ConfigFile::new(p.clone(), StringFormat::new()).read(&mut fs);
    assert!(matches!(r, Err(ConfigError::Decode)));
}

#[test]
fn write_into_missing_parent_fails() {
    let mut fs = Fs::new();
    let p = ConfigPath::empty().join("nowhere").join("leaf.txt");
    let mut c = ConfigFile::new(p, StringFormat::new());
    c.content = Some(String::from("x"));
    let r = c.write(&mut fs);
    assert!(matches!(r, Err(ConfigError::MissingParent)));
}

#[test]
fn read_directory_as_leaf_fails() {
    let (mut fs, p) = leaf_setup();
    ensure(&mut fs, &p).unwrap();
    let r = ConfigFile::new(p.clone(), StringFormat::new()).read(&mut fs);
    assert!(matches!(r, Err(ConfigError::NotAFile)));
}
