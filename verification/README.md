# ability_game

The rules of a small bevy brawler, with their contracts and proofs.

- `src/cooldown.rs` — ability cooldowns and their ticking, with laws on repeated ticks.
- `src/controls.rs` — what one frame of keyboard input does: throwing a fireball,
  the nudges and headings of the player, and the animation commands.
- `src/loading.rs` — the run flag of scenes that are processed once, glTF mesh
  labels, and the plan of colliders attached to the meshes of a loaded scene.
- `src/ability.rs` — plain ability data.
- `app/` — the bevy program: it reads the keyboard and the assets, hands the
  library plain values, and applies the library's decisions to the ECS world.
