//! The knobs of map generation. Chances are in basis points (parts of
//! `CHANCE_SCALE`); aspect-ratio cutoffs are in hundredths.
use vstd::prelude::*;

use crate::rng::CHANCE_SCALE;
use crate::types::MapStyle;

verus! {

/// The area around which the map is cut into regions.
pub const REGION_SPLIT_FACTOR: u32 = 684;

/// Knobs of the binary space partitioning.
#[derive(Debug, Clone, Copy, PartialEq, Eq)]
pub struct BinarySpacePartitioningConfig {
    /// The area around which the map is cut into regions.
    pub region_split_factor: u32,
    /// Share, in basis points, of the oriented regions that prefer
    /// horizontal splits.
    pub horizontal_region_prob: u32,
    /// Rectangles of at most this area are no longer split.
    pub rect_area_cutoff: u32,
    /// Rectangles of at most this area may survive unsplit.
    pub big_rect_area_cutoff: u32,
    /// Chance, in basis points, that such a rectangle survives unsplit.
    pub big_rect_survival_prob: u32,
    /// Chance, in basis points, of a horizontal split.
    pub horizontal_split_prob: u32,
    /// Height-to-width ratio, in hundredths, above which a split is always horizontal.
    pub height_factor_cutoff: u32,
    /// Width-to-height ratio, in hundredths, above which a split is always vertical.
    pub width_factor_cutoff: u32,
    /// Chance, in basis points, that a rectangle too small to split is kept.
    pub rect_survival_prob: u32,
    /// Chance, in basis points, of removing a rectangle with five to seven neighbours.
    pub trim_highly_connected_rect_prob: u32,
    /// Chance, in basis points, of removing a rectangle with eight neighbours or more.
    pub trim_fully_connected_rect_prob: u32,
}

/// Knobs of the whole map generation.
#[derive(Debug, Clone, Copy, PartialEq, Eq)]
pub struct MapBuilderConfig {
    pub bsp_config: BinarySpacePartitioningConfig,
    /// Whether the regions are merged into one map after their rooms are made.
    pub merge_regions: bool,
    /// Chance, in basis points, of merging a room with a random neighbour.
    pub random_room_merge_prob: u32,
    /// Chance, in basis points, that a group of rooms connects to a second group.
    pub group_loop_connection_chance: u32,
    /// Chance, in basis points, of a door that closes a loop.
    pub door_loop_connection_chance: u32,
    /// Chance, in basis points, of merging two small neighbouring rooms.
    pub repeat_small_room_merge_prob: u32,
    /// Chance, in basis points, of cutting a long horizontal room in two.
    pub bisect_room_prob: u32,
}

impl BinarySpacePartitioningConfig {
    /// Every chance that is rolled as it stands is at most `CHANCE_SCALE`,
    /// and the cutoffs are positive. (The aspect cutoffs and the split chance
    /// are clamped before use, and the region chance only scales a bound, so
    /// they take any value.)
    pub open spec fn wf(self) -> bool {
        &&& self.big_rect_survival_prob <= CHANCE_SCALE
        &&& self.rect_survival_prob <= CHANCE_SCALE
        &&& self.trim_highly_connected_rect_prob <= CHANCE_SCALE
        &&& self.trim_fully_connected_rect_prob <= CHANCE_SCALE
        &&& self.region_split_factor > 0
        &&& self.rect_area_cutoff >= 1
    }
}

impl MapBuilderConfig {
    /// Every chance is at most `CHANCE_SCALE`.
    pub open spec fn wf(self) -> bool {
        &&& self.bsp_config.wf()
        &&& self.random_room_merge_prob <= CHANCE_SCALE
        &&& self.group_loop_connection_chance <= CHANCE_SCALE
        &&& self.door_loop_connection_chance <= CHANCE_SCALE
        &&& self.repeat_small_room_merge_prob <= CHANCE_SCALE
        &&& self.bisect_room_prob <= CHANCE_SCALE
    }
}

/// The partitioning knobs used unless a style says otherwise.
pub open spec fn default_bsp_config() -> BinarySpacePartitioningConfig {
    BinarySpacePartitioningConfig {
        region_split_factor: REGION_SPLIT_FACTOR,
        horizontal_region_prob: 5000,
        rect_area_cutoff: 2,
        big_rect_area_cutoff: 9,
        big_rect_survival_prob: 300,
        horizontal_split_prob: 6000,
        height_factor_cutoff: 180,
        width_factor_cutoff: 270,
        rect_survival_prob: 4300,
        trim_highly_connected_rect_prob: 4000,
        trim_fully_connected_rect_prob: 5000,
    }
}

/// The generation knobs used unless a style says otherwise.
pub open spec fn default_builder_config() -> MapBuilderConfig {
    MapBuilderConfig {
        bsp_config: default_bsp_config(),
        merge_regions: true,
        random_room_merge_prob: 500,
        group_loop_connection_chance: 1700,
        door_loop_connection_chance: 2000,
        repeat_small_room_merge_prob: 2000,
        bisect_room_prob: 1000,
    }
}

/// The generation knobs of each style.
pub open spec fn style_config(style: MapStyle) -> MapBuilderConfig {
    match style {
        MapStyle::CastlevaniaSOTN => MapBuilderConfig {
            bsp_config: BinarySpacePartitioningConfig {
                region_split_factor: REGION_SPLIT_FACTOR,
                horizontal_region_prob: 7500,
                rect_area_cutoff: 2,
                big_rect_area_cutoff: 14,
                big_rect_survival_prob: 500,
                horizontal_split_prob: 8500,
                height_factor_cutoff: 290,
                width_factor_cutoff: 260,
                rect_survival_prob: 1300,
                trim_highly_connected_rect_prob: 8000,
                trim_fully_connected_rect_prob: 9000,
            },
            merge_regions: true,
            random_room_merge_prob: 300,
            group_loop_connection_chance: 6400,
            door_loop_connection_chance: 2200,
            repeat_small_room_merge_prob: 5100,
            bisect_room_prob: 1700,
        },
        MapStyle::CastlevaniaAOS => MapBuilderConfig {
            bsp_config: BinarySpacePartitioningConfig {
                region_split_factor: REGION_SPLIT_FACTOR,
                horizontal_region_prob: 0,
                rect_area_cutoff: 2,
                big_rect_area_cutoff: 11,
                big_rect_survival_prob: 1100,
                horizontal_split_prob: 8200,
                height_factor_cutoff: 240,
                width_factor_cutoff: 260,
                rect_survival_prob: 4900,
                trim_highly_connected_rect_prob: 7700,
                trim_fully_connected_rect_prob: 8500,
            },
            merge_regions: true,
            random_room_merge_prob: 100,
            group_loop_connection_chance: 7900,
            door_loop_connection_chance: 2400,
            repeat_small_room_merge_prob: 4500,
            bisect_room_prob: 1500,
        },
        MapStyle::CastlevaniaCOTM => MapBuilderConfig {
            bsp_config: BinarySpacePartitioningConfig {
                region_split_factor: REGION_SPLIT_FACTOR,
                horizontal_region_prob: 1000,
                rect_area_cutoff: 2,
                big_rect_area_cutoff: 12,
                big_rect_survival_prob: 1500,
                horizontal_split_prob: 8200,
                height_factor_cutoff: 140,
                width_factor_cutoff: 260,
                rect_survival_prob: 9500,
                trim_highly_connected_rect_prob: 9500,
                trim_fully_connected_rect_prob: 6000,
            },
            merge_regions: true,
            random_room_merge_prob: 1500,
            group_loop_connection_chance: 9000,
            door_loop_connection_chance: 1400,
            repeat_small_room_merge_prob: 8500,
            bisect_room_prob: 2900,
        },
        MapStyle::CastlevaniaHOD => MapBuilderConfig {
            bsp_config: BinarySpacePartitioningConfig {
                region_split_factor: REGION_SPLIT_FACTOR,
                horizontal_region_prob: 7500,
                rect_area_cutoff: 2,
                big_rect_area_cutoff: 8,
                big_rect_survival_prob: 300,
                horizontal_split_prob: 8500,
                height_factor_cutoff: 190,
                width_factor_cutoff: 160,
                rect_survival_prob: 4000,
                trim_highly_connected_rect_prob: 8000,
                trim_fully_connected_rect_prob: 9000,
            },
            merge_regions: true,
            random_room_merge_prob: 300,
            group_loop_connection_chance: 8600,
            door_loop_connection_chance: 2200,
            repeat_small_room_merge_prob: 8100,
            bisect_room_prob: 1700,
        },
        MapStyle::MetroidZM => MapBuilderConfig {
            bsp_config: BinarySpacePartitioningConfig {
                region_split_factor: ((REGION_SPLIT_FACTOR / 4) + (REGION_SPLIT_FACTOR / 2)) as u32,
                horizontal_region_prob: 7500,
                rect_area_cutoff: 2,
                big_rect_area_cutoff: 14,
                big_rect_survival_prob: 900,
                horizontal_split_prob: 8500,
                height_factor_cutoff: 290,
                width_factor_cutoff: 260,
                rect_survival_prob: 3300,
                trim_highly_connected_rect_prob: 6000,
                trim_fully_connected_rect_prob: 7000,
            },
            merge_regions: false,
            random_room_merge_prob: 300,
            group_loop_connection_chance: 1900,
            door_loop_connection_chance: 2200,
            repeat_small_room_merge_prob: 5100,
            bisect_room_prob: 1700,
        },
        MapStyle::MetroidFS => MapBuilderConfig {
            bsp_config: BinarySpacePartitioningConfig {
                region_split_factor: ((REGION_SPLIT_FACTOR / 4) + (REGION_SPLIT_FACTOR / 2)) as u32,
                horizontal_region_prob: 7500,
                rect_area_cutoff: 2,
                big_rect_area_cutoff: 14,
                big_rect_survival_prob: 900,
                horizontal_split_prob: 8500,
                height_factor_cutoff: 290,
                width_factor_cutoff: 260,
                rect_survival_prob: 3300,
                trim_highly_connected_rect_prob: 8000,
                trim_fully_connected_rect_prob: 9000,
            },
            merge_regions: false,
            random_room_merge_prob: 300,
            group_loop_connection_chance: 1900,
            door_loop_connection_chance: 2200,
            repeat_small_room_merge_prob: 5100,
            bisect_room_prob: 1700,
        },
        MapStyle::MetroidSP => MapBuilderConfig {
            bsp_config: BinarySpacePartitioningConfig {
                region_split_factor: ((REGION_SPLIT_FACTOR / 4) + (REGION_SPLIT_FACTOR / 2)) as u32,
                horizontal_region_prob: 7500,
                rect_area_cutoff: 2,
                big_rect_area_cutoff: 14,
                big_rect_survival_prob: 900,
                horizontal_split_prob: 8500,
                height_factor_cutoff: 290,
                width_factor_cutoff: 260,
                rect_survival_prob: 3300,
                trim_highly_connected_rect_prob: 8000,
                trim_fully_connected_rect_prob: 9000,
            },
            merge_regions: false,
            random_room_merge_prob: 300,
            group_loop_connection_chance: 1900,
            door_loop_connection_chance: 2200,
            repeat_small_room_merge_prob: 5100,
            bisect_room_prob: 1700,
        },
    }
}

impl Default for BinarySpacePartitioningConfig {
    fn default() -> (c: Self)
        ensures
            c == default_bsp_config(),
    {
        BinarySpacePartitioningConfig {
            region_split_factor: REGION_SPLIT_FACTOR,
            horizontal_region_prob: 5000,
            rect_area_cutoff: 2,
            big_rect_area_cutoff: 9,
            big_rect_survival_prob: 300,
            horizontal_split_prob: 6000,
            height_factor_cutoff: 180,
            width_factor_cutoff: 270,
            rect_survival_prob: 4300,
            trim_highly_connected_rect_prob: 4000,
            trim_fully_connected_rect_prob: 5000,
        }
    }
}

impl Default for MapBuilderConfig {
    fn default() -> (c: Self)
        ensures
            c == default_builder_config(),
    {
        MapBuilderConfig {
            bsp_config: BinarySpacePartitioningConfig::default(),
            merge_regions: true,
            random_room_merge_prob: 500,
            group_loop_connection_chance: 1700,
            door_loop_connection_chance: 2000,
            repeat_small_room_merge_prob: 2000,
            bisect_room_prob: 1000,
        }
    }
}

/// A Castlevania style (as opposed to a Metroid one).
pub open spec fn castlevania_style(style: MapStyle) -> bool {
    ||| style matches MapStyle::CastlevaniaSOTN
    ||| style matches MapStyle::CastlevaniaAOS
    ||| style matches MapStyle::CastlevaniaCOTM
    ||| style matches MapStyle::CastlevaniaHOD
}

/// The Castlevania styles merge their regions into one map covering the
/// grid; the Metroid styles (Zero Mission, Fusion, Super Metroid) keep one
/// map per region, linked by region connections.
pub proof fn law_only_castlevania_merges_regions(style: MapStyle)
    ensures
        style_config(style).merge_regions <==> castlevania_style(style),
        (style matches MapStyle::MetroidZM) ==> !style_config(style).merge_regions,
        (style matches MapStyle::MetroidFS) ==> !style_config(style).merge_regions,
        (style matches MapStyle::MetroidSP) ==> !style_config(style).merge_regions,
{
}

impl MapBuilderConfig {
    /// The generation knobs of a style.
    pub fn from_style(style: MapStyle) -> (c: Self)
        ensures
            c == style_config(style),
            c.wf(),
            c.merge_regions <==> castlevania_style(style),
    {
        match style {
            MapStyle::CastlevaniaSOTN => MapBuilderConfig {
                bsp_config: BinarySpacePartitioningConfig {
                    region_split_factor: REGION_SPLIT_FACTOR,
                    horizontal_region_prob: 7500,
                    rect_area_cutoff: 2,
                    big_rect_area_cutoff: 14,
                    big_rect_survival_prob: 500,
                    horizontal_split_prob: 8500,
                    height_factor_cutoff: 290,
                    width_factor_cutoff: 260,
                    rect_survival_prob: 1300,
                    trim_highly_connected_rect_prob: 8000,
                    trim_fully_connected_rect_prob: 9000,
                },
                merge_regions: true,
                random_room_merge_prob: 300,
                group_loop_connection_chance: 6400,
                door_loop_connection_chance: 2200,
                repeat_small_room_merge_prob: 5100,
                bisect_room_prob: 1700,
            },
            MapStyle::CastlevaniaAOS => MapBuilderConfig {
                bsp_config: BinarySpacePartitioningConfig {
                    region_split_factor: REGION_SPLIT_FACTOR,
                    horizontal_region_prob: 0,
                    rect_area_cutoff: 2,
                    big_rect_area_cutoff: 11,
                    big_rect_survival_prob: 1100,
                    horizontal_split_prob: 8200,
                    height_factor_cutoff: 240,
                    width_factor_cutoff: 260,
                    rect_survival_prob: 4900,
                    trim_highly_connected_rect_prob: 7700,
                    trim_fully_connected_rect_prob: 8500,
                },
                merge_regions: true,
                random_room_merge_prob: 100,
                group_loop_connection_chance: 7900,
                door_loop_connection_chance: 2400,
                repeat_small_room_merge_prob: 4500,
                bisect_room_prob: 1500,
            },
            MapStyle::CastlevaniaCOTM => MapBuilderConfig {
                bsp_config: BinarySpacePartitioningConfig {
                    region_split_factor: REGION_SPLIT_FACTOR,
                    horizontal_region_prob: 1000,
                    rect_area_cutoff: 2,
                    big_rect_area_cutoff: 12,
                    big_rect_survival_prob: 1500,
                    horizontal_split_prob: 8200,
                    height_factor_cutoff: 140,
                    width_factor_cutoff: 260,
                    rect_survival_prob: 9500,
                    trim_highly_connected_rect_prob: 9500,
                    trim_fully_connected_rect_prob: 6000,
                },
                merge_regions: true,
                random_room_merge_prob: 1500,
                group_loop_connection_chance: 9000,
                door_loop_connection_chance: 1400,
                repeat_small_room_merge_prob: 8500,
                bisect_room_prob: 2900,
            },
            MapStyle::CastlevaniaHOD => MapBuilderConfig {
                bsp_config: BinarySpacePartitioningConfig {
                    region_split_factor: REGION_SPLIT_FACTOR,
                    horizontal_region_prob: 7500,
                    rect_area_cutoff: 2,
                    big_rect_area_cutoff: 8,
                    big_rect_survival_prob: 300,
                    horizontal_split_prob: 8500,
                    height_factor_cutoff: 190,
                    width_factor_cutoff: 160,
                    rect_survival_prob: 4000,
                    trim_highly_connected_rect_prob: 8000,
                    trim_fully_connected_rect_prob: 9000,
                },
                merge_regions: true,
                random_room_merge_prob: 300,
                group_loop_connection_chance: 8600,
                door_loop_connection_chance: 2200,
                repeat_small_room_merge_prob: 8100,
                bisect_room_prob: 1700,
            },
            MapStyle::MetroidZM => MapBuilderConfig {
                bsp_config: BinarySpacePartitioningConfig {
                    region_split_factor: (REGION_SPLIT_FACTOR / 4) + (REGION_SPLIT_FACTOR / 2),
                    horizontal_region_prob: 7500,
                    rect_area_cutoff: 2,
                    big_rect_area_cutoff: 14,
                    big_rect_survival_prob: 900,
                    horizontal_split_prob: 8500,
                    height_factor_cutoff: 290,
                    width_factor_cutoff: 260,
                    rect_survival_prob: 3300,
                    trim_highly_connected_rect_prob: 6000,
                    trim_fully_connected_rect_prob: 7000,
                },
                merge_regions: false,
                random_room_merge_prob: 300,
                group_loop_connection_chance: 1900,
                door_loop_connection_chance: 2200,
                repeat_small_room_merge_prob: 5100,
                bisect_room_prob: 1700,
            },
            MapStyle::MetroidFS => MapBuilderConfig {
                bsp_config: BinarySpacePartitioningConfig {
                    region_split_factor: (REGION_SPLIT_FACTOR / 4) + (REGION_SPLIT_FACTOR / 2),
                    horizontal_region_prob: 7500,
                    rect_area_cutoff: 2,
                    big_rect_area_cutoff: 14,
                    big_rect_survival_prob: 900,
                    horizontal_split_prob: 8500,
                    height_factor_cutoff: 290,
                    width_factor_cutoff: 260,
                    rect_survival_prob: 3300,
                    trim_highly_connected_rect_prob: 8000,
                    trim_fully_connected_rect_prob: 9000,
                },
                merge_regions: false,
                random_room_merge_prob: 300,
                group_loop_connection_chance: 1900,
                door_loop_connection_chance: 2200,
                repeat_small_room_merge_prob: 5100,
                bisect_room_prob: 1700,
            },
            MapStyle::MetroidSP => MapBuilderConfig {
                bsp_config: BinarySpacePartitioningConfig {
                    region_split_factor: (REGION_SPLIT_FACTOR / 4) + (REGION_SPLIT_FACTOR / 2),
                    horizontal_region_prob: 7500,
                    rect_area_cutoff: 2,
                    big_rect_area_cutoff: 14,
                    big_rect_survival_prob: 900,
                    horizontal_split_prob: 8500,
                    height_factor_cutoff: 290,
                    width_factor_cutoff: 260,
                    rect_survival_prob: 3300,
                    trim_highly_connected_rect_prob: 8000,
                    trim_fully_connected_rect_prob: 9000,
                },
                merge_regions: false,
                random_room_merge_prob: 300,
                group_loop_connection_chance: 1900,
                door_loop_connection_chance: 2200,
                repeat_small_room_merge_prob: 5100,
                bisect_room_prob: 1700,
            },
        }
    }
}

} // verus!
