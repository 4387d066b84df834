//! Crafting-recipe resolution: tag flattening, recipe lookup, ingredient
//! extraction and a breadth-first crafting graph with exact ratios.

pub mod error;
pub mod fraction;
pub mod gamedata;
pub mod graph;
pub mod items;
pub mod known;
pub mod recipe;
pub mod render;
pub mod tags;

pub use error::{CraftError, Fault};
pub use items::{ItemRef, ItemRefSet, RecipeItem, RecipeItems};
pub use tags::{insert_tag, resolve_tag_inner, Tag};
pub use recipe::{default_one, Recipe, RecipeResult};
pub use fraction::Fraction;
pub use gamedata::GameData;
pub use graph::{calculate_craft_graph, CraftGraph};
pub use known::export_items;
