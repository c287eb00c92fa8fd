use spark_ecs::access::{Access, Entry};
use spark_ecs::commands::SetTo;
use spark_ecs::system::{IntoSystem, Res, ResMut, SystemParam};
use spark_ecs::world::{World, WorldView};

type W = World<u32, SetTo<u32>>;

const A: Entry = Entry { id: 0, name: "A" };
const B: Entry = Entry { id: 1, name: "B" };

struct Counted {
    runs: u32,
}

impl IntoSystem<u32, SetTo<u32>> for Counted {
    fn spec_access(&self) -> Access {
        self.access()
    }

    fn spec_name(&self) -> &'static str {
        self.name()
    }

    fn spec_run(&self, _before: WorldView<u32, SetTo<u32>>, _after: WorldView<u32, SetTo<u32>>) -> bool {
        true
    }

    fn name(&self) -> &'static str {
        "counted"
    }
    fn access(&self) -> Access {
        Access::new()
    }
    fn run(&mut self, _world: &mut W) {
        self.runs += 1;
    }
}

enum ResSys {
    Bump,
    Copy,
    Both,
}

impl IntoSystem<u32, SetTo<u32>> for ResSys {
    fn spec_access(&self) -> Access {
        self.access()
    }

    fn spec_name(&self) -> &'static str {
        self.name()
    }

    fn spec_run(&self, _before: WorldView<u32, SetTo<u32>>, _after: WorldView<u32, SetTo<u32>>) -> bool {
        true
    }

    fn name(&self) -> &'static str {
        "res_sys"
    }

    fn access(&self) -> Access {
        let mut a = Access::new();
        match self {
            ResSys::Bump => a.add_resource_write(A.id, A.name),
            ResSys::Copy => {
                a.add_resource_read(A.id, A.name);
                a.add_resource_write(B.id, B.name);
            }
            ResSys::Both => {
                a.add_resource_write(A.id, A.name);
                a.add_resource_write(B.id, B.name);
            }
        }
        a
    }

    fn run(&mut self, world: &mut W) {
        match self {
            ResSys::Bump => {
                let a = ResMut::from_world(world, A);
                *a.value += 1;
            }
            ResSys::Copy => {
                let ok = {
                    let a = Res::from_world(world, A);
                    *a.value == 3
                };
                let b = ResMut::from_world(world, B);
                *b.value = if ok { 1 } else { 2 };
            }
            ResSys::Both => {
                {
                    let a = ResMut::from_world(world, A);
                    *a.value += 1;
                }
                let b = ResMut::from_world(world, B);
                *b.value = 7;
            }
        }
    }
}

#[test]
fn zero_arg_system_runs() {
    let mut world = W::new();
    let mut sys = Counted { runs: 0 };
    sys.run(&mut world);
    sys.run(&mut world);
    assert_eq!(sys.runs, 2);
    assert!(sys.access().compatible_with(&Access::new()));
}

#[test]
fn one_resmut_param_visible_after_run() {
    let mut world = W::new();
    world.add_resource(A.id, 0);
    let mut sys = ResSys::Bump;
    sys.run(&mut world);
    sys.run(&mut world);
    assert_eq!(*world.resource(A.id), 2);
}

#[test]
fn two_param_mix_res_and_resmut() {
    let mut world = W::new();
    world.add_resource(A.id, 3);
    world.add_resource(B.id, 0);
    let mut sys = ResSys::Copy;
    sys.run(&mut world);
    assert_eq!(*world.resource(B.id), 1);
}

#[test]
fn different_types_resmut_coexist_in_one_system() {
    let mut world = W::new();
    world.add_resource(A.id, 1);
    world.add_resource(B.id, 0);
    let mut sys = ResSys::Both;
    assert!(sys.access().assert_no_self_conflict().is_ok());
    sys.run(&mut world);
    assert_eq!(*world.resource(A.id), 2);
    assert_eq!(*world.resource(B.id), 7);
}

#[test]
#[should_panic(expected = "already borrowed")]
fn same_type_double_resmut_panics_at_runtime() {
    let mut world = W::new();
    world.add_resource(A.id, 1);
    let mut access = Access::new();
    ResMut::from_world(&mut world, A).collect_access(&mut access);
    ResMut::from_world(&mut world, A).collect_access(&mut access);
    if let Err(c) = access.assert_no_self_conflict() {
        panic!("resource `{}` already borrowed mutably by this system", c.name);
    }
}

#[test]
fn res_reads_and_resmut_writes_are_recorded() {
    let mut world = W::new();
    world.add_resource(A.id, 1);
    let mut reader = Access::new();
    Res::from_world(&world, A).collect_access(&mut reader);
    let mut writer = Access::new();
    ResMut::from_world(&mut world, A).collect_access(&mut writer);
    assert!(reader.compatible_with(&reader));
    assert!(!reader.compatible_with(&writer));
    assert_eq!(*Res::from_world(&world, A).value, 1);
}
