pub mod sizes;
pub mod finish;
pub mod onebin;
pub mod cells;
pub mod order;
pub mod group;
pub mod frames;

pub use self::sizes::{candidate_bins, ensure_sprites_fit_max_size, next_power_of_two, PackError};
pub use self::finish::finalize_atlas_size;
pub use self::cells::pack_partial;
pub use self::order::try_pack_all_smallest;
pub use self::group::build_atlases_for_group;
pub mod plan;
pub use self::plan::{plan_builds, plan_config, plan_limits_ok, split_groups};
