pub mod cell_table;
pub mod contact;
pub mod counting;
pub mod drag;
pub mod crease;
pub mod paper_sim;
pub mod obj_loader;
pub mod particle_cloth_sim;
pub mod particle_cloth_sim_gpu;
pub mod particle_hash;
pub mod shared;
pub mod sorted_set;
pub mod tokens;
pub mod trace;
