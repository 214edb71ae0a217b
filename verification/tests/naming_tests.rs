//! Suggested-name rule tests.

use uuid::Uuid;
use world_sync::naming::generate_unique_name;
use world_sync::player::{PlayerState, WorldState};

fn empty_player(username: &str) -> PlayerState {
    PlayerState::empty(Uuid::new_v4().as_u128(), username.to_string())
}

#[test]
fn test_generate_unique_name_empty_world() {
    let world = WorldState::new();
    let name = generate_unique_name(&world, "player");
    assert_eq!(name, "player_1");
}

#[test]
fn test_generate_unique_name_some_taken() {
    let mut world = WorldState::new();
    world.players.push(empty_player("foo_1"));
    world.players.push(empty_player("foo_2"));
    let name = generate_unique_name(&world, "foo");
    assert_eq!(name, "foo_3");
}

#[test]
fn test_generate_unique_name_gap_in_sequence() {
    let mut world = WorldState::new();
    world.players.push(empty_player("bar_1"));
    world.players.push(empty_player("bar_3"));
    world.players.push(empty_player("bar_5"));
    let name = generate_unique_name(&world, "bar");
    // the first gap wins, not the next number after the maximum
    assert_eq!(name, "bar_2");
}

#[test]
fn test_generate_unique_name_fallback() {
    let mut world = WorldState::new();
    for i in 1..10000 {
        let key = format!("bar_{}", i);
        world.players.push(empty_player(&key));
    }
    let name = generate_unique_name(&world, "bar");
    assert_eq!(name, "bar_fallback");
}

#[test]
fn test_generate_unique_name_different_prefixes() {
    let mut world = WorldState::new();
    world.players.push(empty_player("alpha_1"));
    world.players.push(empty_player("beta_1"));
    let name_alpha = generate_unique_name(&world, "alpha");
    let name_beta = generate_unique_name(&world, "beta");
    assert_eq!(name_alpha, "alpha_2");
    assert_eq!(name_beta, "beta_2");
}

#[test]
fn test_generate_unique_name_special_characters() {
    let mut world = WorldState::new();
    world.players.push(empty_player("player@_1"));
    let name = generate_unique_name(&world, "player@");
    assert_eq!(name, "player@_2");
}

#[test]
fn test_generate_unique_name_empty_prefix() {
    let world = WorldState::new();
    let name = generate_unique_name(&world, "");
    assert_eq!(name, "_1");
}

#[test]
fn test_generate_unique_name_with_unicode() {
    let mut world = WorldState::new();
    world.players.push(empty_player("玩家_1"));
    let name = generate_unique_name(&world, "玩家");
    assert_eq!(name, "玩家_2");
}

#[test]
fn test_username_max_length() {
    let long_name = "a".repeat(1000);
    let mut world = WorldState::new();
    world.players.push(empty_player(&long_name));
    assert!(world.players.iter().any(|p| p.username.len() == 1000));
}
