use aiomad::constants::{
    CA_ITER, CHUNK_MAP_COLS, CHUNK_MAP_ROWS, N, PERLIN_GRID_COLS, PERLIN_GRID_ROWS,
    WORLD_MAP_COLS, WORLD_MAP_ROWS,
};
use aiomad::game::schedule::world_side;
use aiomad::game::game::GameState;
use aiomad::graphics::camera::CameraMovement;
use aiomad::graphics::graphics::GraphicsState;

#[test]
fn camera_starts_at_rest() {
    let movement = CameraMovement::new();
    assert!(!movement.left);
    assert!(!movement.right);
    assert!(!movement.zoom);
    assert!(!movement.unzoom);
    assert!(!movement.pz);
    assert!(!movement.mz);
}

#[test]
fn states_compare_by_variant() {
    assert_eq!(GameState::RUNNING, GameState::RUNNING);
    assert_ne!(GameState::RUNNING, GameState::DEAD);
    assert!(GraphicsState::WORLD_MAP == GraphicsState::WORLD_MAP);
    assert!(GraphicsState::WORLD_MAP != GraphicsState::CHUNK_MAP);
}

#[test]
fn world_size_follows_its_depth() {
    assert_eq!(N, 6);
    assert_eq!(WORLD_MAP_ROWS, world_side(N));
    assert_eq!(WORLD_MAP_COLS, WORLD_MAP_ROWS);
    assert_eq!(CA_ITER, 6);
}

#[test]
fn chunk_and_lattice_sizes() {
    assert_eq!((CHUNK_MAP_ROWS, CHUNK_MAP_COLS), (100, 100));
    assert_eq!((PERLIN_GRID_ROWS, PERLIN_GRID_COLS), (4, 3));
}
