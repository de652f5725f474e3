//! Configuration of a deployment: where the two indexes live and how large
//! the chunks of the lexical index are. The configuration is a plain value
//! that the caller keeps and hands on.

use vstd::prelude::*;
use vstd::string::StringExecFns;

verus! {

/// The settings shared by the whole pipeline.
#[derive(Debug)]
pub struct GlobalConfig {
    pub oasysdb_dir: String,
    pub tantivy_dir: String,
    pub tantivy_chunk_size: usize,
}

/// Collects the settings that differ from the builder's defaults.
pub struct GlobalConfigBuilder {
    oasysdb_dir: Option<String>,
    tantivy_dir: Option<String>,
    tantivy_chunk_size: Option<usize>,
}

/// The chunk size used where none is chosen.
pub const DEFAULT_CHUNK_SIZE: usize = 2048;

impl Clone for GlobalConfig {
    fn clone(&self) -> (copy: Self)
        ensures
            copy == *self,
    {
        GlobalConfig {
            oasysdb_dir: self.oasysdb_dir.clone(),
            tantivy_dir: self.tantivy_dir.clone(),
            tantivy_chunk_size: self.tantivy_chunk_size,
        }
    }
}

impl Default for GlobalConfig {
    fn default() -> (config: Self)
        ensures
            config.oasysdb_dir@ == "./db/oasysdb"@,
            config.tantivy_dir@ == "./db/tantivy"@,
            config.tantivy_chunk_size == DEFAULT_CHUNK_SIZE,
    {
        GlobalConfig {
            oasysdb_dir: String::from_str("./db/oasysdb"),
            tantivy_dir: String::from_str("./db/tantivy"),
            tantivy_chunk_size: DEFAULT_CHUNK_SIZE,
        }
    }
}

impl GlobalConfigBuilder {
    /// The directory chosen for the vector index, if any.
    pub closed spec fn chosen_oasysdb_dir(&self) -> Option<Seq<char>> {
        match self.oasysdb_dir {
            Some(path) => Some(path@),
            None => None,
        }
    }

    /// The directory chosen for the lexical index, if any.
    pub closed spec fn chosen_tantivy_dir(&self) -> Option<Seq<char>> {
        match self.tantivy_dir {
            Some(path) => Some(path@),
            None => None,
        }
    }

    /// The chunk size chosen for the lexical index, if any.
    pub closed spec fn chosen_chunk_size(&self) -> Option<usize> {
        self.tantivy_chunk_size
    }

    /// A builder with nothing chosen.
    pub fn new() -> (builder: Self)
        ensures
            builder.chosen_oasysdb_dir() is None,
            builder.chosen_tantivy_dir() is None,
            builder.chosen_chunk_size() is None,
    {
        GlobalConfigBuilder { oasysdb_dir: None, tantivy_dir: None, tantivy_chunk_size: None }
    }

    /// Chooses the directory of the vector index.
    pub fn oasysdb_dir(self, path: &str) -> (builder: Self)
        ensures
            builder.chosen_oasysdb_dir() == Some(path@),
            builder.chosen_tantivy_dir() == self.chosen_tantivy_dir(),
            builder.chosen_chunk_size() == self.chosen_chunk_size(),
    {
        GlobalConfigBuilder {
            oasysdb_dir: Some(String::from_str(path)),
            tantivy_dir: self.tantivy_dir,
            tantivy_chunk_size: self.tantivy_chunk_size,
        }
    }

    /// Chooses the directory of the lexical index.
    pub fn tantivy_dir(self, path: &str) -> (builder: Self)
        ensures
            builder.chosen_oasysdb_dir() == self.chosen_oasysdb_dir(),
            builder.chosen_tantivy_dir() == Some(path@),
            builder.chosen_chunk_size() == self.chosen_chunk_size(),
    {
        GlobalConfigBuilder {
            oasysdb_dir: self.oasysdb_dir,
            tantivy_dir: Some(String::from_str(path)),
            tantivy_chunk_size: self.tantivy_chunk_size,
        }
    }

    /// Chooses the chunk size of the lexical index.
    pub fn tantivy_chunk_size(self, size: usize) -> (builder: Self)
        ensures
            builder.chosen_oasysdb_dir() == self.chosen_oasysdb_dir(),
            builder.chosen_tantivy_dir() == self.chosen_tantivy_dir(),
            builder.chosen_chunk_size() == Some(size),
    {
        GlobalConfigBuilder {
            oasysdb_dir: self.oasysdb_dir,
            tantivy_dir: self.tantivy_dir,
            tantivy_chunk_size: Some(size),
        }
    }

    /// The configuration with every setting that was chosen, and for the
    /// others `./oasysdb`, `./tantivy` and the default chunk size. It never
    /// fails.
    pub fn build(self) -> (built: Result<GlobalConfig, String>)
        ensures
            built is Ok,
            built->Ok_0.oasysdb_dir@ == (match self.chosen_oasysdb_dir() {
                Some(path) => path,
                None => "./oasysdb"@,
            }),
            built->Ok_0.tantivy_dir@ == (match self.chosen_tantivy_dir() {
                Some(path) => path,
                None => "./tantivy"@,
            }),
            built->Ok_0.tantivy_chunk_size == (match self.chosen_chunk_size() {
                Some(size) => size,
                None => DEFAULT_CHUNK_SIZE,
            }),
    {
        let oasysdb_dir = match self.oasysdb_dir {
            Some(path) => path,
            None => String::from_str("./oasysdb"),
        };
        let tantivy_dir = match self.tantivy_dir {
            Some(path) => path,
            None => String::from_str("./tantivy"),
        };
        let tantivy_chunk_size = match self.tantivy_chunk_size {
            Some(size) => size,
            None => DEFAULT_CHUNK_SIZE,
        };
        Ok(GlobalConfig { oasysdb_dir, tantivy_dir, tantivy_chunk_size })
    }
}

/// Stores `config` in `slot` as the configuration in force, in place of
/// whatever was there.
pub fn initialise_globals(slot: &mut Option<GlobalConfig>, config: GlobalConfig)
    ensures
        *final(slot) == Some(config),
{
    *slot = Some(config);
}

/// A copy of the configuration in force, or an error where none was stored.
pub fn get_global_config(slot: &Option<GlobalConfig>) -> (found: Result<GlobalConfig, String>)
    ensures
        match *slot {
            Some(config) => found == Ok::<GlobalConfig, String>(config),
            None => found is Err && found->Err_0@ == "Global config not initialised"@,
        },
{
    match slot {
        Some(config) => Ok(config.clone()),
        None => Err(String::from_str("Global config not initialised")),
    }
}

} // verus!
