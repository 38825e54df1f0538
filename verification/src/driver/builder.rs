//! What is set up before a driver starts.

use crate::driver::config::DriverResources;
use crate::driver::types::{DriverError, ErrorView};
use crate::value::Symbol;
use vstd::prelude::*;

verus! {

/// When a commit counts as stored.
#[derive(Clone, Copy, Debug, PartialEq, Eq, Structural)]
pub enum DriverDurability {
    Strict,
    Relaxed,
}

/// Where the driver keeps relations.
#[derive(Debug, PartialEq, Eq)]
pub enum DriverStorage {
    Memory,
    Fjall { path: String, durability: DriverDurability },
}

/// How a unit of source is filed in.
#[derive(Clone, Copy, Debug, PartialEq, Eq, Structural)]
pub enum FileinMode {
    Add,
    Replace,
}

/// Source that is filed in before the driver starts. A loader of included files is
/// known by its number.
#[derive(Debug)]
pub enum InitialFilein {
    Source { source: String, include_loader: Option<usize> },
    Unit { unit: Symbol, source: String, mode: FileinMode, include_loader: Option<usize> },
}

/// Which runner the driver gets.
#[derive(Debug, PartialEq, Eq)]
pub enum RunnerChoice {
    /// The one that the host configured.
    Configured,
    /// An empty one in memory, with the configured source provider where there is
    /// one.
    Empty { source_provider: bool },
    /// One whose relations are stored.
    Stored { path: String, durability: DriverDurability, source_provider: bool },
}

/// Which runner, apart from how its path is stored.
pub enum RunnerChoiceView {
    Configured,
    Empty(bool),
    Stored(Seq<char>, DriverDurability, bool),
}

impl View for RunnerChoice {
    type V = RunnerChoiceView;

    open spec fn view(&self) -> RunnerChoiceView {
        match self {
            RunnerChoice::Configured => RunnerChoiceView::Configured,
            RunnerChoice::Empty { source_provider } => RunnerChoiceView::Empty(*source_provider),
            RunnerChoice::Stored { path, durability, source_provider } => RunnerChoiceView::Stored(
                path@,
                *durability,
                *source_provider,
            ),
        }
    }
}

/// What a host set up for its driver.
#[derive(Debug)]
pub struct DriverBuilder {
    resources: DriverResources,
    storage: DriverStorage,
    runner_configured: bool,
    source_configured: bool,
    initial_fileins: Vec<InitialFilein>,
}

/// What a host set up for its driver.
pub struct BuilderView {
    pub resources: DriverResources,
    pub stored: Option<(Seq<char>, DriverDurability)>,
    pub runner_configured: bool,
    pub source_configured: bool,
    pub initial_fileins: Seq<InitialFilein>,
}

impl View for DriverBuilder {
    type V = BuilderView;

    closed spec fn view(&self) -> BuilderView {
        BuilderView {
            resources: self.resources,
            stored: match self.storage {
                DriverStorage::Memory => None,
                DriverStorage::Fjall { path, durability } => Some((path@, durability)),
            },
            runner_configured: self.runner_configured,
            source_configured: self.source_configured,
            initial_fileins: self.initial_fileins@,
        }
    }
}

impl BuilderView {
    /// Which runner the driver gets, or what is wrong with the setup. Storage is
    /// refused where the program was built without it.
    pub open spec fn choice(self, storage_available: bool) -> Result<RunnerChoiceView, ErrorView> {
        if self.resources.fault() is Some {
            Err(ErrorView::Configuration(self.resources.fault()->0))
        } else if self.runner_configured && self.stored is Some {
            Err(
                ErrorView::Configuration(
                    "a source runner and driver storage cannot both be configured"@,
                ),
            )
        } else if self.runner_configured && self.source_configured {
            Err(
                ErrorView::Configuration(
                    "a source runner and source-provider configuration cannot both be configured"@,
                ),
            )
        } else if self.runner_configured {
            Ok(RunnerChoiceView::Configured)
        } else {
            match self.stored {
                None => Ok(RunnerChoiceView::Empty(self.source_configured)),
                Some((path, durability)) => if storage_available {
                    Ok(RunnerChoiceView::Stored(path, durability, self.source_configured))
                } else {
                    Err(
                        ErrorView::Configuration(
                            "Fjall storage requires the mica-driver `fjall` feature"@,
                        ),
                    )
                },
            }
        }
    }
}

impl DriverBuilder {
    /// A setup with the given resources, in memory.
    pub fn new(resources: DriverResources) -> (builder: DriverBuilder)
        ensures
            builder@ == (BuilderView {
                resources,
                stored: None,
                runner_configured: false,
                source_configured: false,
                initial_fileins: Seq::empty(),
            }),
    {
        DriverBuilder {
            resources,
            storage: DriverStorage::Memory,
            runner_configured: false,
            source_configured: false,
            initial_fileins: Vec::new(),
        }
    }

    /// Says where relations are kept.
    pub fn storage(self, storage: DriverStorage) -> (builder: DriverBuilder)
        ensures
            builder@ == (BuilderView {
                stored: match storage {
                    DriverStorage::Memory => None,
                    DriverStorage::Fjall { path, durability } => Some((path@, durability)),
                },
                ..self@
            }),
    {
        let mut builder = self;
        builder.storage = storage;
        builder
    }

    /// Says that the host brings a runner.
    pub fn source_runner(self) -> (builder: DriverBuilder)
        ensures
            builder@ == (BuilderView { runner_configured: true, ..self@ }),
    {
        let mut builder = self;
        builder.runner_configured = true;
        builder
    }

    /// Says that the host brings a source provider.
    pub fn source_config(self) -> (builder: DriverBuilder)
        ensures
            builder@ == (BuilderView { source_configured: true, ..self@ }),
    {
        let mut builder = self;
        builder.source_configured = true;
        builder
    }

    /// Adds source to be filed in, after what was added before.
    pub fn initial_filein(self, source: String, include_loader: Option<usize>) -> (builder:
        DriverBuilder)
        ensures
            builder@ == (BuilderView {
                initial_fileins: self@.initial_fileins.push(
                    InitialFilein::Source { source, include_loader },
                ),
                ..self@
            }),
    {
        let mut builder = self;
        builder.initial_fileins.push(InitialFilein::Source { source, include_loader });
        builder
    }

    /// Adds a unit of source to be filed in, after what was added before.
    pub fn initial_filein_unit(
        self,
        unit: Symbol,
        source: String,
        mode: FileinMode,
        include_loader: Option<usize>,
    ) -> (builder: DriverBuilder)
        ensures
            builder@ == (BuilderView {
                initial_fileins: self@.initial_fileins.push(
                    InitialFilein::Unit { unit, source, mode, include_loader },
                ),
                ..self@
            }),
    {
        let mut builder = self;
        builder.initial_fileins.push(InitialFilein::Unit { unit, source, mode, include_loader });
        builder
    }

    /// The resources.
    pub fn resources(&self) -> (resources: DriverResources)
        ensures
            resources == self@.resources,
    {
        self.resources
    }

    /// Decides which runner the driver gets, and hands over what is to be filed in,
    /// in order.
    pub fn build_driver(self, storage_available: bool) -> (plan: Result<
        (RunnerChoice, Vec<InitialFilein>),
        DriverError,
    >)
        ensures
            match plan {
                Ok((choice, fileins)) => {
                    &&& self@.choice(storage_available) == Ok::<_, ErrorView>(choice@)
                    &&& fileins@ == self@.initial_fileins
                },
                Err(error) => self@.choice(storage_available) == Err::<RunnerChoiceView, _>(error@),
            },
    {
        match self.resources.validate() {
            Err(error) => {
                return Err(error);
            },
            Ok(()) => {},
        }
        let stored: bool = match &self.storage {
            DriverStorage::Memory => false,
            DriverStorage::Fjall { .. } => true,
        };
        if self.runner_configured && stored {
            return Err(
                DriverError::configuration(
                    "a source runner and driver storage cannot both be configured",
                ),
            );
        }
        if self.runner_configured && self.source_configured {
            return Err(
                DriverError::configuration(
                    "a source runner and source-provider configuration cannot both be configured",
                ),
            );
        }
        let source_provider: bool = self.source_configured;
        if self.runner_configured {
            return Ok((RunnerChoice::Configured, self.initial_fileins));
        }
        match self.storage {
            DriverStorage::Memory => Ok(
                (RunnerChoice::Empty { source_provider }, self.initial_fileins),
            ),
            DriverStorage::Fjall { path, durability } => if storage_available {
                Ok((RunnerChoice::Stored { path, durability, source_provider }, self.initial_fileins))
            } else {
                Err(
                    DriverError::configuration(
                        "Fjall storage requires the mica-driver `fjall` feature",
                    ),
                )
            },
        }
    }
}

} // verus!
