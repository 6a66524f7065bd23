pub mod xyz_wing;
