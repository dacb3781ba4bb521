pub mod audio;
pub mod damage;
pub mod enemies;
pub mod grid;
pub mod hints;
pub mod hud;
pub mod interaction;
pub mod inventory;
pub mod menu;
pub mod pathfinding;
pub mod phys_layers;
pub mod player;
pub mod shooting;
