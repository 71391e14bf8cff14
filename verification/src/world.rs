//! World generation from a configuration: carve, expand, describe.

use rand::rngs::StdRng;
use vstd::prelude::*;
use crate::carver::{carve, carved_by_walk};
use crate::config::{fault_of, ConfigError, WorldConfig};
use crate::expander::{expand, is_expansion, PhysicalGrid};
use crate::factory::{descriptors_of, spawn_descriptors, SpawnDescriptor};
use crate::grid::LogicalGrid;
use crate::paths::spanning_tree;
use crate::random::{rng_from_os, rng_from_seed};

verus! {

/// A generated world: the logical board, the physical grid expanded from
/// it, and the descriptors of what is to be spawned.
#[derive(Clone, Debug, PartialEq, Eq)]
pub struct World {
    pub logical: LogicalGrid,
    pub physical: PhysicalGrid,
    pub descriptors: Vec<SpawnDescriptor>,
}

/// Why no world was generated.
#[derive(Clone, Copy, Debug, PartialEq, Eq, Structural)]
pub enum GenerateError {
    /// The configuration is wrong.
    Config(ConfigError),
    /// No seed was configured and the operating system gave none.
    NoEntropy,
}

/// `world` is a world for `config`: its board is a spanning tree of the
/// configured size carved by the walk, its physical grid expands the board
/// with the configured heights, and its descriptors are those of the grid
/// under the configured layout.
pub open spec fn world_for(config: WorldConfig, world: World) -> bool {
    &&& world.logical.wf()
    &&& world.logical@.size == config.board_size
    &&& spanning_tree(world.logical@)
    &&& carved_by_walk(config.board_size as nat, world.logical@.links)
    &&& world.physical.wf()
    &&& is_expansion(world.logical, config.heights, world.physical@)
    &&& world.descriptors@ == descriptors_of(world.physical@, config.layout)
    &&& world.descriptors@.len() == (2 * config.board_size) * (2 * config.board_size)
}

/// Generates a world for `config`, drawing from `rng`. A faulty
/// configuration is turned down before anything is drawn; any other yields
/// a world, whatever is drawn.
pub fn generate_with(config: &WorldConfig, rng: &mut StdRng) -> (generated: Result<
    World,
    ConfigError,
>)
    ensures
        match fault_of(*config) {
            Some(fault) => generated == Err::<World, ConfigError>(fault),
            None => generated is Ok && world_for(*config, generated->Ok_0),
        },
{
    match config.validate() {
        Ok(()) => {},
        Err(fault) => {
            return Err(fault);
        },
    }
    let logical = match carve(config.board_size, rng) {
        Ok(logical) => logical,
        Err(fault) => {
            return Err(fault);
        },
    };
    let physical = match expand(&logical, &config.heights, rng) {
        Ok(physical) => physical,
        Err(fault) => {
            return Err(fault);
        },
    };
    let descriptors = spawn_descriptors(&physical, &config.layout);
    proof {
        let n = config.board_size as int;
        assert((2 * n) * (2 * n) == physical@.len() * physical@.len()) by (nonlinear_arith)
            requires
                physical@.len() == 2 * n,
        ;
    }
    Ok(World { logical, physical, descriptors })
}

/// Generates a world for `config`. A faulty configuration is turned down
/// first. With a seed the random source is made from it and a world comes
/// back. Without one the operating system is asked for a seed, and either a
/// world comes back or the operating system had no seed to give.
pub fn generate(config: &WorldConfig) -> (generated: Result<World, GenerateError>)
    ensures
        match fault_of(*config) {
            Some(fault) => generated == Err::<World, GenerateError>(GenerateError::Config(fault)),
            None => match generated {
                Ok(world) => world_for(*config, world),
                Err(e) => e == GenerateError::NoEntropy && config.seed is None,
            },
        },
{
    match config.validate() {
        Ok(()) => {},
        Err(fault) => {
            return Err(GenerateError::Config(fault));
        },
    }
    let mut rng = match config.seed {
        Some(seed) => rng_from_seed(seed),
        None => match rng_from_os() {
            Ok(rng) => rng,
            Err(_) => {
                return Err(GenerateError::NoEntropy);
            },
        },
    };
    match generate_with(config, &mut rng) {
        Ok(world) => Ok(world),
        Err(fault) => Err(GenerateError::Config(fault)),
    }
}

} // verus!
