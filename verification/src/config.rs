//! What a caller configures, and the ways in which a configuration can be
//! wrong.

use vstd::prelude::*;
use crate::board::MAX_BOARD_SIZE;
use crate::culler::DEFAULT_CULL_RADIUS;
use crate::expander::HeightPolicy;
use crate::factory::Layout;

verus! {

/// Why a configuration was turned down.
#[derive(Clone, Copy, Debug, PartialEq, Eq, Structural)]
pub enum ConfigError {
    /// The board has no cell.
    BoardSizeZero,
    /// The board is larger than `MAX_BOARD_SIZE`.
    BoardSizeTooLarge,
    /// The range of wall heights holds no value.
    EmptyWallRange,
}

/// Everything that world generation and culling are configured with.
/// Lengths and heights are in thousandths of a unit.
#[derive(Clone, Copy, Debug, PartialEq, Eq)]
pub struct WorldConfig {
    /// Edge of the logical board, from 1 to `MAX_BOARD_SIZE`.
    pub board_size: usize,
    /// Seed of the random source; without one the operating system is asked.
    pub seed: Option<u64>,
    /// Heights of passages and walls.
    pub heights: HeightPolicy,
    /// Spacing and height scale of what is spawned.
    pub layout: Layout,
    /// Distance at which spawned cells are hidden.
    pub cull_radius: u32,
}

/// The first thing that is wrong with a configuration, if anything is: the
/// board size is looked at before the wall range.
pub open spec fn fault_of(config: WorldConfig) -> Option<ConfigError> {
    if config.board_size == 0 {
        Some(ConfigError::BoardSizeZero)
    } else if config.board_size > MAX_BOARD_SIZE {
        Some(ConfigError::BoardSizeTooLarge)
    } else if config.heights.wall_low >= config.heights.wall_high {
        Some(ConfigError::EmptyWallRange)
    } else {
        None
    }
}

impl Default for WorldConfig {
    /// A board of fifty cells a side, no seed, passages at height zero,
    /// walls between 0.8 and 1 unit high and drawn four times as tall, two
    /// units from cell to cell, and a cull radius of twenty units.
    fn default() -> (config: WorldConfig)
        ensures
            config == (WorldConfig {
                board_size: 50,
                seed: None,
                heights: HeightPolicy { open: 0, wall_low: 800, wall_high: 1000 },
                layout: Layout { spacing: 2000, height_scale: 4 },
                cull_radius: DEFAULT_CULL_RADIUS,
            }),
            fault_of(config) is None,
    {
        WorldConfig {
            board_size: 50,
            seed: None,
            heights: HeightPolicy { open: 0, wall_low: 800, wall_high: 1000 },
            layout: Layout { spacing: 2000, height_scale: 4 },
            cull_radius: DEFAULT_CULL_RADIUS,
        }
    }
}

impl WorldConfig {
    /// Checks the configuration, and names the first fault if there is one.
    pub fn validate(&self) -> (checked: Result<(), ConfigError>)
        ensures
            match fault_of(*self) {
                Some(fault) => checked == Err::<(), ConfigError>(fault),
                None => checked is Ok,
            },
    {
        if self.board_size == 0 {
            Err(ConfigError::BoardSizeZero)
        } else if self.board_size > MAX_BOARD_SIZE {
            Err(ConfigError::BoardSizeTooLarge)
        } else if self.heights.wall_low >= self.heights.wall_high {
            Err(ConfigError::EmptyWallRange)
        } else {
            Ok(())
        }
    }
}

} // verus!
