use wasp::{WaspAgent, FS};

const KUBE_RECORD: &str = "0::/kubepods.slice/kubepods-burstable.slice/kubepods-burstable-podb312a30a_d345_42c8_a659_32a04d5fd529.slice/crio-0ae1424a0e6b723f775c60e8aea2b45455ed1bbff25492097f2cabe086ba7990.scope";
const KUBE_SWAP_FILE: &str = "/sys/fs/cgroup/kubepods.slice/kubepods-burstable.slice/kubepods-burstable-podb312a30a_d345_42c8_a659_32a04d5fd529.slice/crio-0ae1424a0e6b723f775c60e8aea2b45455ed1bbff25492097f2cabe086ba7990.scope/memory.swap.max";
const KUBE_CGROUP: &str = "/sys/fs/cgroup/kubepods.slice/kubepods-burstable.slice/kubepods-burstable-podb312a30a_d345_42c8_a659_32a04d5fd529.slice/crio-0ae1424a0e6b723f775c60e8aea2b45455ed1bbff25492097f2cabe086ba7990.scope";

fn kube_only() -> FS {
    let mut fs = FS::new_mock();
    fs.write_string("/proc/6553/cgroup", KUBE_RECORD);
    fs.write_string(KUBE_SWAP_FILE, "0");
    fs
}

fn kube_and_logind() -> FS {
    let mut fs = kube_only();
    fs.write_string("/proc/441/cgroup", "0::/system.slice/systemd-logind.service");
    fs.write_string("/sys/fs/cgroup/system.slice/systemd-logind.service/memory.swap.max", "0");
    fs
}

#[test]
fn good_walk() {
    let mut fs = FS::new_mock();
    fs.write_string(&"/proc/6553/cgroup",
               &"0::/kubepods.slice/kubepods-burstable.slice/kubepods-burstable-podb312a30a_d345_42c8_a659_32a04d5fd529.slice/crio-0ae1424a0e6b723f775c60e8aea2b45455ed1bbff25492097f2cabe086ba7990.scope");
    fs.write_string(&"/sys/fs/cgroup/kubepods.slice/kubepods-burstable.slice/kubepods-burstable-podb312a30a_d345_42c8_a659_32a04d5fd529.slice/crio-0ae1424a0e6b723f775c60e8aea2b45455ed1bbff25492097f2cabe086ba7990.scope/memory.swap.max",
               &"0");

    fs.write_string(&"/proc/441/cgroup",
               &"0::/system.slice/systemd-logind.service");
    fs.write_string(&"/sys/fs/cgroup/system.slice/systemd-logind.service/memory.swap.max",
                    &"0");
    let wasp = WaspAgent::new(fs);
    println!("{:?}", wasp.kube_container_cgroups());
    assert_eq!(wasp.kube_container_cgroups().len(), 1);
    assert_eq!(wasp.non_kube_container_cgroups().len(), 1);
}

#[test]
fn one_kube_process_gives_one_kube_cgroup() {
    let wasp = WaspAgent::new(kube_only());
    let all = wasp.swap_capable_cgroups();
    assert_eq!(all.len(), 1);
    assert_eq!(all.paths(), &vec![KUBE_CGROUP.to_string()]);
    let kube = wasp.kube_container_cgroups();
    assert_eq!(kube.len(), 1);
    assert!(kube.contains(KUBE_CGROUP));
    let other = wasp.non_kube_container_cgroups();
    assert_eq!(other.len(), 0);
    assert!(other.is_empty());
}

#[test]
fn two_processes_split_into_kube_and_other() {
    let wasp = WaspAgent::new(kube_and_logind());
    let all = wasp.swap_capable_cgroups();
    assert_eq!(all.len(), 2);
    let kube = wasp.kube_container_cgroups();
    assert_eq!(kube.paths(), &vec![KUBE_CGROUP.to_string()]);
    let other = wasp.non_kube_container_cgroups();
    assert_eq!(
        other.paths(),
        &vec!["/sys/fs/cgroup/system.slice/systemd-logind.service".to_string()]
    );
}

#[test]
fn classes_are_disjoint_and_cover_the_enumeration() {
    let mut fs = kube_and_logind();
    fs.write_string("/proc/7/cgroup", "0::/kubepods.slice/pod1/crio-conmon-77.scope\n");
    fs.write_string("/sys/fs/cgroup/kubepods.slice/pod1/crio-conmon-77.scope/memory.swap.max", "max");
    let wasp = WaspAgent::new(fs);
    let all = wasp.swap_capable_cgroups();
    let kube = wasp.kube_container_cgroups();
    let other = wasp.non_kube_container_cgroups();
    assert_eq!(all.len(), 3);
    assert_eq!(kube.len() + other.len(), all.len());
    for path in all.paths() {
        assert_ne!(kube.contains(path), other.contains(path));
    }
    assert!(other.contains("/sys/fs/cgroup/kubepods.slice/pod1/crio-conmon-77.scope"));
}

#[test]
fn enumeration_is_repeatable() {
    let wasp = WaspAgent::new(kube_and_logind());
    let first = wasp.swap_capable_cgroups();
    let second = wasp.swap_capable_cgroups();
    assert_eq!(first.paths(), second.paths());
}

#[test]
fn processes_of_one_cgroup_count_once() {
    let mut fs = kube_and_logind();
    fs.write_string("/proc/442/cgroup", "0::/system.slice/systemd-logind.service\n");
    let wasp = WaspAgent::new(fs);
    assert_eq!(wasp.swap_capable_cgroups().len(), 2);
}

#[test]
fn cgroup_without_swap_file_is_not_enumerated() {
    let mut fs = kube_only();
    fs.write_string("/proc/9/cgroup", "0::/kubepods.slice/pod9/crio-99.scope");
    fs.write_string("/sys/fs/cgroup/kubepods.slice/pod9/crio-99.scope/memory.max", "max");
    let wasp = WaspAgent::new(fs);
    let all = wasp.swap_capable_cgroups();
    assert_eq!(all.len(), 1);
    assert!(!all.contains("/sys/fs/cgroup/kubepods.slice/pod9/crio-99.scope"));
}

#[test]
fn malformed_membership_file_is_skipped() {
    let mut fs = kube_and_logind();
    fs.write_string("/proc/12/cgroup", "12:memory:/user.slice\n11:cpu:/user.slice\n");
    fs.write_string("/sys/fs/cgroup/user.slice/memory.swap.max", "max");
    let wasp = WaspAgent::new(fs);
    assert_eq!(wasp.swap_capable_cgroups().len(), 2);
}

#[test]
fn files_that_are_no_membership_files_are_not_read() {
    let mut fs = kube_only();
    fs.write_string("/proc/441/status", "0::/system.slice/systemd-logind.service");
    fs.write_string("/proc/441/task/441/cgroup", "0::/system.slice/systemd-logind.service");
    fs.write_string("/process/441/cgroup", "0::/system.slice/systemd-logind.service");
    fs.write_string("/sys/fs/cgroup/system.slice/systemd-logind.service/memory.swap.max", "0");
    let wasp = WaspAgent::new(fs);
    assert_eq!(wasp.swap_capable_cgroups().len(), 1);
}

#[test]
fn sweep_turns_swap_off_outside_kubernetes_only() {
    let mut fs = kube_and_logind();
    fs.write_string(KUBE_SWAP_FILE, "1024");
    fs.write_string("/sys/fs/cgroup/system.slice/systemd-logind.service/memory.swap.max", "max");
    let mut wasp = WaspAgent::new(fs);
    let report = wasp.configure_node_swap();
    assert_eq!(
        report.configured.paths(),
        &vec!["/sys/fs/cgroup/system.slice/systemd-logind.service".to_string()]
    );
    assert!(report.failed.is_empty());
    let fs = wasp.into_fs();
    assert_eq!(
        fs.read_to_string("/sys/fs/cgroup/system.slice/systemd-logind.service/memory.swap.max"),
        Ok("0".to_string())
    );
    assert_eq!(fs.read_to_string(KUBE_SWAP_FILE), Ok("1024".to_string()));
    assert_eq!(fs.len(), 4);
}

#[test]
fn sweep_twice_is_sweep_once() {
    let mut wasp = WaspAgent::new(kube_and_logind());
    wasp.configure_node_swap();
    let once = wasp
        .fs()
        .read_to_string("/sys/fs/cgroup/system.slice/systemd-logind.service/memory.swap.max");
    let report = wasp.configure_node_swap();
    let twice = wasp
        .fs()
        .read_to_string("/sys/fs/cgroup/system.slice/systemd-logind.service/memory.swap.max");
    assert_eq!(once, Ok("0".to_string()));
    assert_eq!(once, twice);
    assert_eq!(report.configured.len(), 1);
}
