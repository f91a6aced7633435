use tonks::resources::ResourceId;
use tonks::scheduler::planner::{compatible, plan_stages, shares};

fn ids(numbers: &[usize]) -> Vec<ResourceId> {
    numbers.iter().map(|n| ResourceId(*n)).collect()
}

fn plan(systems: &[(&[usize], &[usize])]) -> Vec<Vec<usize>> {
    let reads: Vec<Vec<ResourceId>> = systems.iter().map(|s| ids(s.0)).collect();
    let writes: Vec<Vec<ResourceId>> = systems.iter().map(|s| ids(s.1)).collect();
    plan_stages(&reads, &writes)
}

#[test]
fn shares_finds_a_common_resource() {
    assert!(shares(&ids(&[1, 2, 3]), &ids(&[5, 3])));
    assert!(shares(&ids(&[4]), &ids(&[4])));
    assert!(!shares(&ids(&[1, 2, 3]), &ids(&[4, 5])));
    assert!(!shares(&ids(&[]), &ids(&[1])));
    assert!(!shares(&ids(&[1]), &ids(&[])));
}

#[test]
fn readers_are_compatible() {
    assert!(compatible(&ids(&[0]), &ids(&[]), &ids(&[0, 1]), &ids(&[])));
}

#[test]
fn a_write_conflicts_with_any_access() {
    // the system writes what the stage reads
    assert!(!compatible(&ids(&[]), &ids(&[0]), &ids(&[0]), &ids(&[])));
    // the system writes what the stage writes
    assert!(!compatible(&ids(&[]), &ids(&[0]), &ids(&[]), &ids(&[0])));
    // the system reads what the stage writes
    assert!(!compatible(&ids(&[0]), &ids(&[]), &ids(&[]), &ids(&[0])));
    // apart
    assert!(compatible(&ids(&[0]), &ids(&[1]), &ids(&[0]), &ids(&[2])));
}

#[test]
fn no_systems_no_stages() {
    assert_eq!(plan(&[]), Vec::<Vec<usize>>::new());
}

#[test]
fn one_system_one_stage() {
    assert_eq!(plan(&[(&[0], &[1])]), vec![vec![0]]);
}

#[test]
fn common_write_gives_one_stage_each() {
    let systems: Vec<(&[usize], &[usize])> = (0..6).map(|_| (&[][..], &[3][..])).collect();
    assert_eq!(
        plan(&systems),
        vec![vec![0], vec![1], vec![2], vec![3], vec![4], vec![5]]
    );
}

#[test]
fn readers_of_distinct_resources_give_one_stage() {
    assert_eq!(
        plan(&[(&[0], &[]), (&[1], &[]), (&[2], &[])]),
        vec![vec![0, 1, 2]]
    );
}

#[test]
fn readers_of_one_resource_give_one_stage() {
    assert_eq!(
        plan(&[(&[0], &[]), (&[0], &[]), (&[0], &[])]),
        vec![vec![0, 1, 2]]
    );
}

#[test]
fn stage_mates_never_conflict() {
    let systems: [(&[usize], &[usize]); 6] = [
        (&[0], &[1]),
        (&[1], &[2]),
        (&[0], &[3]),
        (&[3], &[0]),
        (&[], &[4]),
        (&[4, 2], &[]),
    ];
    let stages = plan(&systems);
    assert_eq!(stages, vec![vec![0, 2, 4], vec![1, 3], vec![5]]);
    for stage in &stages {
        for a in stage {
            for b in stage {
                if a != b {
                    assert!(compatible(
                        &ids(systems[*a].0),
                        &ids(systems[*a].1),
                        &ids(systems[*b].0),
                        &ids(systems[*b].1)
                    ));
                }
            }
        }
    }
}

#[test]
fn a_later_system_fills_an_earlier_stage() {
    // The third system conflicts with the second one, which stands in stage
    // 1, and still goes into stage 0: nothing there is in its way.
    let stages = plan(&[(&[], &[0]), (&[], &[0, 1]), (&[], &[1])]);
    assert_eq!(stages, vec![vec![0, 2], vec![1]]);
}

#[test]
fn a_later_system_follows_when_every_earlier_stage_clashes() {
    let stages = plan(&[(&[], &[0]), (&[], &[0, 1]), (&[0], &[1])]);
    assert_eq!(stages, vec![vec![0], vec![1], vec![2]]);
}

#[test]
fn planning_twice_gives_the_same_plan() {
    let systems: [(&[usize], &[usize]); 4] =
        [(&[0], &[1]), (&[1], &[2]), (&[2], &[0]), (&[], &[])];
    assert_eq!(plan(&systems), plan(&systems));
    assert_eq!(plan(&systems), vec![vec![0, 3], vec![1], vec![2]]);
}

#[test]
fn every_system_is_placed_once() {
    let systems: [(&[usize], &[usize]); 5] =
        [(&[0], &[1]), (&[1], &[0]), (&[], &[1]), (&[0, 1], &[]), (&[], &[])];
    let stages = plan(&systems);
    let mut seen: Vec<usize> = stages.iter().flatten().copied().collect();
    seen.sort();
    assert_eq!(seen, vec![0, 1, 2, 3, 4]);
    assert!(stages.iter().all(|stage| !stage.is_empty()));
}
