//! How a store is set up.

use vstd::prelude::*;

verus! {

/// Where a store keeps its documents.
#[derive(Clone, Copy, Debug, PartialEq, Eq, Structural)]
pub enum StorageType {
    /// In memory only.
    RamCopies,
    /// In memory, and persisted to disk.
    DiskCopies,
}

impl Default for StorageType {
    fn default() -> (stype: Self)
        ensures
            stype == StorageType::RamCopies,
    {
        Self::RamCopies
    }
}

/// The mathematical content of a [`Config`].
pub struct ConfigView {
    pub path: Seq<char>,
    pub name: Seq<char>,
    pub total_page_size: usize,
    pub stype: StorageType,
}

/// The configuration of a store.
#[derive(Debug)]
pub struct Config {
    path: String,
    name: String,
    total_page_size: usize,
    stype: StorageType,
}

impl View for Config {
    type V = ConfigView;

    closed spec fn view(&self) -> ConfigView {
        ConfigView {
            path: self.path@,
            name: self.name@,
            total_page_size: self.total_page_size,
            stype: self.stype,
        }
    }
}

/// The configuration that `Config::new` makes: no path, no name, no pages,
/// in memory only.
pub open spec fn initial() -> ConfigView {
    ConfigView {
        path: Seq::empty(),
        name: Seq::empty(),
        total_page_size: 0,
        stype: StorageType::RamCopies,
    }
}

impl Clone for Config {
    fn clone(&self) -> (config: Self)
        ensures
            config@ == self@,
    {
        Config {
            path: self.path.clone(),
            name: self.name.clone(),
            total_page_size: self.total_page_size,
            stype: self.stype,
        }
    }
}

impl Default for Config {
    fn default() -> (config: Self)
        ensures
            config@ == initial(),
    {
        Config {
            path: String::new(),
            name: String::new(),
            total_page_size: 0,
            stype: StorageType::RamCopies,
        }
    }
}

impl Config {
    /// The configuration of an unnamed store in memory.
    pub fn new() -> (config: Self)
        ensures
            config@ == initial(),
    {
        Config {
            path: String::new(),
            name: String::new(),
            total_page_size: 0,
            stype: StorageType::RamCopies,
        }
    }

    /// The same configuration under the name `name`.
    pub fn with_name(self, name: &str) -> (config: Self)
        ensures
            config@ == (ConfigView { name: name@, ..self@ }),
    {
        let mut config = self;
        config.name = name.to_owned();
        config
    }

    /// The same configuration with the path `path`.
    pub fn with_path(self, path: &str) -> (config: Self)
        ensures
            config@ == (ConfigView { path: path@, ..self@ }),
    {
        let mut config = self;
        config.path = path.to_owned();
        config
    }

    /// The same configuration with `total_page_size` pages.
    pub fn with_total_page_size(self, total_page_size: usize) -> (config: Self)
        ensures
            config@ == (ConfigView { total_page_size, ..self@ }),
    {
        let mut config = self;
        config.total_page_size = total_page_size;
        config
    }

    /// The same configuration with the storage mode `stype`.
    pub fn with_type(self, stype: StorageType) -> (config: Self)
        ensures
            config@ == (ConfigView { stype, ..self@ }),
    {
        let mut config = self;
        config.stype = stype;
        config
    }

    /// The store's name.
    pub fn name(&self) -> (name: &str)
        ensures
            name@ == self@.name,
    {
        self.name.as_str()
    }

    /// The store's path.
    pub fn path(&self) -> (path: &str)
        ensures
            path@ == self@.path,
    {
        self.path.as_str()
    }

    /// The number of pages.
    pub fn total_page_size(&self) -> (total_page_size: usize)
        ensures
            total_page_size == self@.total_page_size,
    {
        self.total_page_size
    }

    /// The storage mode.
    pub fn storage_type(&self) -> (stype: StorageType)
        ensures
            stype == self@.stype,
    {
        self.stype
    }
}

} // verus!
