use wasp::cgroup::{join_paths, resolve, resolve_all, CGROUP_BASE};
use wasp::cgroup_set::CgroupSet;
use wasp::classify::{classify_kube, classify_other, path_is_kube_container};
use wasp::configure::{apply_zero_policy, configure_zero, set_swap};
use wasp::glob::{glob_match, pattern_is_admissible};

fn hits(pattern: &str, path: &str) -> bool {
    glob_match(pattern, path) == Ok(true)
}

fn refused(pattern: &str, path: &str) -> bool {
    glob_match(pattern, path) == Err(WaspError::PatternRefused)
}
use wasp::membership::parse_membership;
use wasp::text::{chars_of, compare, contains, Precedence};
use wasp::{CgInterface, Cgroup, WaspError, FS};

#[test]
fn new_stores_are_empty() {
    let live = FS::new();
    let mock = FS::new_mock();
    assert_eq!(live.len(), 0);
    assert_eq!(mock.len(), 0);
    assert!(!live.is_mock());
    assert!(mock.is_mock());
    assert!(!mock.file_exists("/proc/1/cgroup"));
}

#[test]
fn write_is_seen_by_read_and_exists() {
    let mut fs = FS::new_mock();
    fs.write_string("/b", "two");
    fs.write_string("/a", "one");
    assert!(fs.file_exists("/a"));
    assert!(fs.file_exists("/b"));
    assert!(!fs.file_exists("/c"));
    assert_eq!(fs.read_to_string("/a"), Ok("one".to_string()));
    assert_eq!(fs.read_to_string("/b"), Ok("two".to_string()));
    assert_eq!(fs.len(), 2);
}

#[test]
fn write_replaces_the_whole_file() {
    let mut fs = FS::new_mock();
    fs.write_string("/a", "a long value");
    fs.write_string("/a", "0");
    assert_eq!(fs.read_to_string("/a"), Ok("0".to_string()));
    assert_eq!(fs.len(), 1);
}

#[test]
fn read_of_missing_file_is_not_found() {
    let fs = FS::new_mock();
    assert_eq!(fs.read_to_string("/nowhere"), Err(WaspError::NotFound));
}

#[test]
fn find_gives_matches_in_dictionary_order() {
    let mut fs = FS::new_mock();
    fs.write_string("/proc/6553/cgroup", "x");
    fs.write_string("/proc/441/cgroup", "y");
    fs.write_string("/proc/441/stat", "z");
    fs.write_string("/proc/cgroup", "w");
    fs.write_string("/sys/1/cgroup", "v");
    assert_eq!(
        fs.find("/proc", "*/cgroup"),
        Ok(vec!["/proc/441/cgroup".to_string(), "/proc/6553/cgroup".to_string()])
    );
    assert_eq!(fs.find("/proc/", "*/cgroup").unwrap().len(), 2);
    assert_eq!(fs.find("/proc", "*/nothing"), Ok(Vec::<String>::new()));
}

#[test]
fn find_matches_against_the_pattern_not_the_text() {
    let mut fs = FS::new_mock();
    fs.write_string("/root/*/cgroup", "literal star");
    fs.write_string("/root/7/cgroup", "seven");
    fs.write_string("/root/7/8/cgroup", "too deep");
    let found = fs.find("/root", "*/cgroup").unwrap();
    assert!(found.contains(&"/root/7/cgroup".to_string()));
    assert!(!found.contains(&"/root/7/8/cgroup".to_string()));
    assert_eq!(fs.find("/root", "7/cgroup"), Ok(vec!["/root/7/cgroup".to_string()]));
    assert_eq!(fs.find("/root", "9/cgroup"), Ok(Vec::<String>::new()));
}

#[test]
fn glob_match_follows_the_matcher() {
    assert!(hits("*/cgroup", "6553/cgroup"));
    assert!(!hits("*/cgroup", "6553/status"));
    assert!(!hits("*/cgroup", "cgroup"));
    assert!(hits("kubepods.slice/*.slice/*.slice/crio-ab.scope",
        "kubepods.slice/a.slice/b.slice/crio-ab.scope"));
    assert!(!hits("kubepods.slice/*.slice/*.slice/crio-ab.scope",
        "kubepods.slice/a.slice/crio-ab.scope"));
    assert!(hits("a?c", "abc"));
    assert!(!hits("a?c", "ac"));
}

#[test]
fn patterns_with_groups_are_matched() {
    assert!(pattern_is_admissible("*/cgroup"));
    assert!(pattern_is_admissible("{a,b}"));
    assert!(pattern_is_admissible("<a:1,2>"));
    assert!(hits("{a,b}", "a"));
    assert!(hits("{a,b}", "b"));
    assert!(!hits("{a,b}", "c"));
    assert!(hits("kubepods.slice/{a,b}.slice", "kubepods.slice/a.slice"));
    assert!(!hits("kubepods.slice/{a,b}.slice", "kubepods.slice/c.slice"));
    assert!(hits("<a:1,2>", "a"));
    assert!(hits("<a:1,2>", "aa"));
    assert!(!hits("<a:1,2>", "aaa"));
    assert!(hits("{a,<b:2>}/x", "bb/x"));
}

#[test]
fn lookup_by_a_pattern_with_alternation() {
    let mut fs = FS::new_mock();
    fs.write_string("/sys/fs/cgroup/kubepods.slice/a.slice", "");
    fs.write_string("/sys/fs/cgroup/kubepods.slice/c.slice", "");
    let found = fs.cg_find("kubepods.slice/{a,b}.slice").unwrap().unwrap();
    assert_eq!(found.path(), "/sys/fs/cgroup/kubepods.slice/a.slice");
    assert_eq!(
        fs.find("/sys/fs/cgroup", "kubepods.slice/{a,c}.slice"),
        Ok(vec![
            "/sys/fs/cgroup/kubepods.slice/a.slice".to_string(),
            "/sys/fs/cgroup/kubepods.slice/c.slice".to_string()
        ])
    );
    assert!(fs.cg_find("kubepods.slice/{b,d}.slice").unwrap().is_none());
}

#[test]
fn patterns_nested_too_deep_are_refused() {
    let nested = |depth: usize| format!("{}b{}", "{a,".repeat(depth), "}".repeat(depth));
    assert!(pattern_is_admissible(&nested(16)));
    assert!(hits(&nested(16), "a"));
    assert!(hits(&nested(16), "b"));
    assert!(!pattern_is_admissible(&nested(17)));
    assert!(refused(&nested(17), "a"));
    let beside = "{a,b}".repeat(40);
    assert!(pattern_is_admissible(&beside));
    assert!(hits(&beside, &"ab".repeat(20)));
    assert!(!hits(&beside, &"ab".repeat(19)));
}

#[test]
fn repetitions_with_bounds_too_large_are_refused() {
    assert!(pattern_is_admissible("<a:1,1000>"));
    assert!(!pattern_is_admissible("<a:1,99999999999>"));
    assert!(!pattern_is_admissible("<a:1,99999999999999999999999999>"));
    assert!(!pattern_is_admissible("<<a:100000>:100000>"));
    assert!(refused("<<a:100000>:100000>", "a"));
    assert!(!pattern_is_admissible("<a:18446744073709551615><b:2>"));
}

#[test]
fn repetitions_from_zero_to_a_bound_are_refused() {
    for pattern in ["<a:1,><b:0,1>", "a*<b:0,1>", "<a:0,1>{b,c*}", "<b:0,1>", "<b:00,7>x", "<b:3,0>"] {
        assert!(!pattern_is_admissible(pattern), "{}", pattern);
        assert!(refused(pattern, "a"), "{}", pattern);
        assert!(refused(pattern, "ab"), "{}", pattern);
    }
    assert!(pattern_is_admissible("<a:0,>b"));
    assert!(hits("<a:0,>b", "b"));
    assert!(hits("<a:0,>b", "aaab"));
    assert!(pattern_is_admissible("<a:1,><b:1,2>"));
    assert!(hits("<a:1,><b:1,2>", "aab"));
}

#[test]
fn only_what_the_matcher_reads_as_structure_counts() {
    let id = "crio-0ae1424a0e6b723f775c60e8aea2b45455ed1bbff25492097f2cabe086ba7990.scope";
    assert!(pattern_is_admissible(id));
    assert!(hits(id, id));
    let repeated = format!("<a:1,2>-{}", id);
    assert!(pattern_is_admissible(&repeated));
    assert!(hits(&repeated, &format!("aa-{}", id)));
    assert!(pattern_is_admissible("<a:0,>9999999999"));
    assert!(pattern_is_admissible("{a,b}-99999999999999999999999999"));
    assert!(hits("{a,b}-99999999999999999999999999", "b-99999999999999999999999999"));
    let escaped = "\\{".repeat(40);
    assert!(pattern_is_admissible(&escaped));
    assert!(hits(&escaped, &"{".repeat(40)));
    let classes = "[{<]".repeat(40);
    assert!(pattern_is_admissible(&classes));
    assert!(hits(&classes, &"{<".repeat(20)));
    assert!(pattern_is_admissible("[:][0],[1]<a:1,2>"));
    assert!(pattern_is_admissible("\\:0,1<a:1,2>"));
    assert!(hits("\\:0\\,<a:1,2>", ":0,a"));
}

#[test]
fn patterns_of_many_shapes_are_answered() {
    let patterns = [
        "<a:0,1>", "<a:0,1>b", "b<a:0,1>", "<a:0,1>/b", "<a:0,1>*", "*<a:0,1>", "<a:0,1>?",
        "<a:0,1><b:0,2>", "<a:0,1><b:1,2>", "<a:0,1><b:2>", "<a:0,1><b:1,>", "<a:0,1><b:0,>",
        "<a:0,1>{b,cc}", "<a:0,1>{b,c*}", "{<a:0,1>,b}", "{<a:0,1>,b*}", "{<a:0,1>,bb}c*",
        "<<a:0,1>:2>", "<<a:0,1>:1,>", "<<a:0,1>:1,2>", "<<a:1,>:0,1>", "<<a:1,2>:0,3>",
        "<a*:0,1>", "<a*:0,1>b", "<a:0,>", "<a:0,>b", "<a:0,>*", "<a:0,><b:1,>", "<a:0,><b:1,2>",
        "<<a:0,>:1,2>", "<<a:1,2>:0,>", "<a:1,>", "<a:1,>b*", "<a:1,><b:2,3>", "<a:1,><b:2,>",
        "<a:1,2>*", "*<a:1,2>", "<a:1,2>{b,cc}", "<a:1,2>{b,c*}", "{<a:1,2>,b*}", "{<a:1,2>,b}",
        "<<a:1,2>:3,4>", "<<a:1,>:3,4>", "<<a:1,2>:3,>", "<<a:1,>:2,>", "<a*:1,2>", "<a*:1,>",
        "<a*:2>", "<{a,bb}:1,2>*", "<{a,b*}:1,2>c", "<[ab]:1,2>*", "<?:1,2>*", "<a:2>", "<a:2>*",
        "<a>", "<a>*", "<a:>", "<a:1>", "<a:1,1>", "<a:3,2>", "<a:3,2>*", "<a:2,0>*", "<a:0>",
        "<a:0,0>", "<a:00,5>*", "<a/:1,2>*", "<a/:0,2>b", "</a:1,2>", "<**/:1,2>", "{a,b}",
        "{a,*}", "{a,*}b", "{a,**}", "{a,b*}c*", "{*,a}{b,cc}", "{a,bb}{c,*}", "{{a,b},*}",
        "{a,?}*", "{a,[bc]}*", "a{b,c*}d{e,ff}*", "{a/,b}*", "**/{a,b*}", "{**/a,b}", "{a,b/**}",
        "[a-z]*", "[!a]*", "*[ab]?", "a\\{b", "a\\<b:0,1\\>*", "[<]*", "[{][}]", "(?i)a*",
        "a(?i)b{c,d}", "$", "a$b", "**", "a/**/b", "***", "a**", "", "<", ">", "{", "}", ":", ",",
        "<a:", "<a:1,", "<:1,2>", "a:0,1", "{a:0,1}", "<a,b:1,2>", "<a:1,2,3>", "<a:1:2>", "\\",
        "[", "]", "[]", "[\\]]", "<[:]:1,2>", "<a\\::1,2>*", "<a:1,2>\\", "{<a:1,>,<b:2,3>}*c",
    ];
    for pattern in patterns {
        for path in ["", "a", "ab", "a/b", "aab"] {
            assert_eq!(
                glob_match(pattern, path).is_ok(),
                pattern_is_admissible(pattern),
                "{} {}",
                pattern,
                path
            );
        }
    }
}

#[test]
fn pattern_that_the_matcher_does_not_build_matches_nothing() {
    assert_eq!(glob_match("a/***/b", "a/x/b"), Ok(false));
    assert_eq!(glob_match("[", "["), Ok(false));
}

#[test]
fn lookup_by_a_refused_pattern_is_an_error() {
    let mut fs = FS::new_mock();
    fs.write_string("/sys/fs/cgroup/ab", "");
    assert_eq!(fs.find("/sys/fs/cgroup", "a*<b:0,1>"), Err(WaspError::PatternRefused));
    assert!(matches!(fs.cg_find("a*<b:0,1>"), Err(WaspError::PatternRefused)));
    assert!(matches!(Cgroup::find(&fs, "<a:1,><b:0,1>"), Err(WaspError::PatternRefused)));
    assert_eq!(fs.len(), 1);
}

#[test]
fn resolve_puts_the_path_below_the_mount_point() {
    assert_eq!(CGROUP_BASE, "/sys/fs/cgroup");
    assert_eq!(resolve("system.slice/a.service"), "/sys/fs/cgroup/system.slice/a.service");
    assert_eq!(resolve("/system.slice/a.service"), "/sys/fs/cgroup/system.slice/a.service");
    assert_eq!(resolve("///system.slice"), "/sys/fs/cgroup/system.slice");
    assert_eq!(resolve("/"), "/sys/fs/cgroup/");
    assert_eq!(resolve(""), "/sys/fs/cgroup/");
}

#[test]
fn join_keeps_one_separator() {
    assert_eq!(join_paths("/a/b", "c"), "/a/b/c");
    assert_eq!(join_paths("/a/b/", "/c"), "/a/b/c");
    assert_eq!(join_paths("/a/b//", "//c/"), "/a/b/c/");
    assert_eq!(join_paths("/", "c"), "/c");
}

#[test]
fn cgroup_paths_and_interfaces() {
    let mut fs = FS::new_mock();
    fs.write_string("/sys/fs/cgroup/system.slice/memory.swap.max", "max");
    let cg = Cgroup::open("/system.slice");
    assert_eq!(cg.path(), "/sys/fs/cgroup/system.slice");
    assert_eq!(cg.full_path("memory.swap.max"), "/sys/fs/cgroup/system.slice/memory.swap.max");
    assert_eq!(cg.full_path("/memory.swap.max"), "/sys/fs/cgroup/system.slice/memory.swap.max");
    assert!(cg.has_interface(&fs, "memory.swap.max"));
    assert!(!cg.has_interface(&fs, "memory.max"));
    assert!(cg.interface(&fs, "memory.max").is_none());
    let handle = cg.interface(&fs, "memory.swap.max").unwrap();
    assert_eq!(handle.file(), "/sys/fs/cgroup/system.slice/memory.swap.max");
    assert_eq!(handle.set(&mut fs, "17"), Ok(()));
    assert_eq!(
        fs.read_to_string("/sys/fs/cgroup/system.slice/memory.swap.max"),
        Ok("17".to_string())
    );
    assert_eq!(fs.cg("system.slice").path(), "/sys/fs/cgroup/system.slice");
}

#[test]
fn missing_interface_is_not_created() {
    let mut fs = FS::new_mock();
    let cg = Cgroup::open("user.slice");
    let handle = CgInterface::open(&cg, "memory.swap.max");
    assert_eq!(handle.set(&mut fs, "0"), Err(WaspError::IoError));
    assert_eq!(fs.len(), 0);
    assert!(matches!(configure_zero(&mut fs, &cg), Err(WaspError::IoError)));
    assert!(matches!(set_swap(&mut fs, &cg, "5"), Err(WaspError::IoError)));
    assert_eq!(fs.len(), 0);
}

#[test]
fn zero_policy_twice_is_zero_policy_once() {
    let mut fs = FS::new_mock();
    fs.write_string("/sys/fs/cgroup/user.slice/memory.swap.max", "max");
    let cg = Cgroup::open("user.slice");
    let first = configure_zero(&mut fs, &cg).unwrap();
    assert_eq!(first.path, "/sys/fs/cgroup/user.slice/memory.swap.max");
    assert_eq!(first.value, "0");
    let once = fs.read_to_string("/sys/fs/cgroup/user.slice/memory.swap.max");
    configure_zero(&mut fs, &cg).unwrap();
    let twice = fs.read_to_string("/sys/fs/cgroup/user.slice/memory.swap.max");
    assert_eq!(once, Ok("0".to_string()));
    assert_eq!(twice, once);
    assert_eq!(fs.len(), 1);
}

#[test]
fn zero_policy_goes_on_after_a_failure() {
    let mut fs = FS::new_mock();
    fs.write_string("/sys/fs/cgroup/a/memory.swap.max", "max");
    fs.write_string("/sys/fs/cgroup/c/memory.swap.max", "max");
    let mut set = CgroupSet::new();
    set.insert("/sys/fs/cgroup/c");
    set.insert("/sys/fs/cgroup/b");
    set.insert("/sys/fs/cgroup/a");
    let report = apply_zero_policy(&mut fs, &set);
    assert_eq!(
        report.configured.paths(),
        &vec!["/sys/fs/cgroup/a".to_string(), "/sys/fs/cgroup/c".to_string()]
    );
    assert_eq!(report.failed.paths(), &vec!["/sys/fs/cgroup/b".to_string()]);
    assert_eq!(fs.read_to_string("/sys/fs/cgroup/a/memory.swap.max"), Ok("0".to_string()));
    assert_eq!(fs.read_to_string("/sys/fs/cgroup/c/memory.swap.max"), Ok("0".to_string()));
    assert!(!fs.file_exists("/sys/fs/cgroup/b/memory.swap.max"));
}

#[test]
fn cg_find_gives_the_first_match_or_none() {
    let mut fs = FS::new_mock();
    fs.write_string("/sys/fs/cgroup/kubepods.slice/b.slice/c.slice/crio-77.scope", "");
    fs.write_string("/sys/fs/cgroup/kubepods.slice/a.slice/c.slice/crio-77.scope", "");
    let found = fs.cg_find("kubepods.slice/*.slice/*.slice/crio-77.scope").unwrap().unwrap();
    assert_eq!(found.path(), "/sys/fs/cgroup/kubepods.slice/a.slice/c.slice/crio-77.scope");
    assert!(fs.cg_find("kubepods.slice/*.slice/*.slice/crio-78.scope").unwrap().is_none());
    assert!(Cgroup::find(&fs, "kubepods.slice/*.slice/crio-77.scope").unwrap().is_none());
}

#[test]
fn membership_records() {
    assert_eq!(
        parse_membership("0::/system.slice/systemd-logind.service"),
        Ok("/system.slice/systemd-logind.service".to_string())
    );
    assert_eq!(parse_membership("0::/a/b\n"), Ok("/a/b".to_string()));
    assert_eq!(parse_membership("0::/a/b \t\r\n"), Ok("/a/b".to_string()));
    assert_eq!(parse_membership("0::/"), Ok("/".to_string()));
    assert_eq!(parse_membership("0::/a:b"), Ok("/a:b".to_string()));
    assert_eq!(parse_membership("12::/a"), Ok("/a".to_string()));
}

#[test]
fn malformed_membership_records() {
    assert_eq!(parse_membership(""), Err(WaspError::ParseError));
    assert_eq!(parse_membership("\n"), Err(WaspError::ParseError));
    assert_eq!(parse_membership("::/a"), Err(WaspError::ParseError));
    assert_eq!(parse_membership("0:/a"), Err(WaspError::ParseError));
    assert_eq!(parse_membership("0:"), Err(WaspError::ParseError));
    assert_eq!(parse_membership("x::/a"), Err(WaspError::ParseError));
    assert_eq!(parse_membership("1:name=systemd:/a"), Err(WaspError::ParseError));
    assert_eq!(parse_membership("0::/a\n0::/b\n"), Err(WaspError::ParseError));
    assert_eq!(parse_membership("12:memory:/a\n0::/b\n"), Err(WaspError::ParseError));
}

#[test]
fn kube_container_paths() {
    assert!(path_is_kube_container("/sys/fs/cgroup/kubepods.slice/a.slice/crio-1.scope"));
    assert!(!path_is_kube_container("/sys/fs/cgroup/kubepods.slice/a.slice/crio-conmon-1.scope"));
    assert!(!path_is_kube_container("/sys/fs/cgroup/conmon/kubepods.slice"));
    assert!(!path_is_kube_container("/sys/fs/cgroup/system.slice/systemd-logind.service"));
    assert!(!path_is_kube_container("/sys/fs/cgroup/kubepods.slic"));
    assert!(!path_is_kube_container(""));
}

#[test]
fn classification_of_a_set() {
    let mut set = CgroupSet::new();
    assert!(set.insert("/sys/fs/cgroup/system.slice/x.service"));
    assert!(set.insert("/sys/fs/cgroup/kubepods.slice/p/crio-1.scope"));
    assert!(set.insert("/sys/fs/cgroup/kubepods.slice/p/crio-conmon-1.scope"));
    assert!(!set.insert("/sys/fs/cgroup/system.slice/x.service"));
    assert_eq!(set.len(), 3);
    let kube = classify_kube(&set);
    let other = classify_other(&set);
    assert_eq!(kube.paths(), &vec!["/sys/fs/cgroup/kubepods.slice/p/crio-1.scope".to_string()]);
    assert_eq!(
        other.paths(),
        &vec![
            "/sys/fs/cgroup/kubepods.slice/p/crio-conmon-1.scope".to_string(),
            "/sys/fs/cgroup/system.slice/x.service".to_string()
        ]
    );
    assert_eq!(set.difference(&other).paths(), kube.paths());
}

#[test]
fn sets_are_walked_in_dictionary_order() {
    let mut set = CgroupSet::new();
    let mut expected = vec!["b", "a", "ab", "", "B", "a/b", "é", "z"];
    for p in &expected {
        set.insert(p);
    }
    expected.sort();
    let walked: Vec<&str> = set.paths().iter().map(|s| s.as_str()).collect();
    assert_eq!(walked, expected);
}

#[test]
fn comparison_is_by_code_point() {
    let cmp = |a: &str, b: &str| compare(&chars_of(a), &chars_of(b));
    assert_eq!(cmp("a", "b"), Precedence::Before);
    assert_eq!(cmp("b", "a"), Precedence::After);
    assert_eq!(cmp("a", "a"), Precedence::Same);
    assert_eq!(cmp("", "a"), Precedence::Before);
    assert_eq!(cmp("ab", "a"), Precedence::After);
    assert_eq!(cmp("Z", "a"), Precedence::Before);
    assert!(contains(&chars_of("xkubepods.slicey"), &chars_of("kubepods.slice")));
    assert!(contains(&chars_of("abc"), &chars_of("")));
    assert!(!contains(&chars_of("ab"), &chars_of("abc")));
}

#[test]
fn resolve_takes_segments_one_below_the_other() {
    assert_eq!(resolve_all(&vec![]), "/sys/fs/cgroup");
    assert_eq!(
        resolve_all(&vec!["/kubepods.slice/".to_string(), "/pod1".to_string(), "memory.swap.max".to_string()]),
        "/sys/fs/cgroup/kubepods.slice/pod1/memory.swap.max"
    );
}

#[test]
fn large_admissible_repetitions_are_answered() {
    for pattern in ["<?:1,10000000>x", "<a:9000000>", "<<ab:1,3000>:1,3000>", "<[a-z]:1,2000>/<*:4000>"] {
        assert!(pattern_is_admissible(pattern), "{}", pattern);
        assert!(!hits(pattern, "y"), "{}", pattern);
    }
}
