use harvest_captain::world::World;

#[test]
fn demo_world_and_empty_world_build() {
    let mut demo = World::demo();
    demo.tick();
    let _empty = World::new(3, 4);
}
