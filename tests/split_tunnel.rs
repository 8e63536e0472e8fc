use split_tunnel::cgroup::{create_cgroup, list_pids, ExclusionGroup};
use split_tunnel::classifier::{classid_text, NETCLS_CLASSID};
use split_tunnel::cli::Split;
use split_tunnel::dns;
use split_tunnel::dns::{notify_next, notify_start, NotifyStep};
use split_tunnel::routing::{
    digits_to_u32, find_registered_id, registry_entry, table_name, RoutingTable, DEFAULT_TABLE_ID,
};
use split_tunnel::split::Error;
use split_tunnel::text::{decimal_bytes, parse_pid, pid_text, split_lines};

#[test]
fn group_setup_twice_is_idempotent() {
    let first = create_cgroup(false);
    assert!(first.create_dir);
    assert_eq!(first.classid, b"5087041".to_vec());
    let second = create_cgroup(true);
    assert!(!second.create_dir);
    assert_eq!(second.classid, first.classid);
}

#[test]
fn classid_text_is_decimal_tag() {
    assert_eq!(NETCLS_CLASSID, 5087041);
    assert_eq!(classid_text(), b"5087041".to_vec());
}

#[test]
fn add_then_list_contains_pid_once() {
    let mut g = ExclusionGroup::new();
    g.add_process(7);
    g.add_process(42);
    g.add_process(42);
    assert_eq!(g.list_processes(), vec![7, 42]);
    assert!(g.contains(42));
}

#[test]
fn add_remove_then_list_lacks_pid() {
    let mut g = ExclusionGroup::new();
    g.add_process(100);
    g.add_process(200);
    assert!(g.remove_process(100));
    assert_eq!(g.list_processes(), vec![200]);
    assert!(!g.contains(100));
}

#[test]
fn removing_non_member_moves_nothing() {
    let mut g = ExclusionGroup::new();
    g.add_process(5);
    assert!(!g.remove_process(6));
    assert_eq!(g.list_processes(), vec![5]);
}

#[test]
fn clear_all_succeed_empties_group() {
    let mut g = ExclusionGroup::from_listing(&vec![1, 2, 3]);
    let mut handed = Vec::new();
    let mut next = g.clear_start();
    while let Some(pid) = next {
        handed.push(pid);
        next = g.clear_step(true).unwrap();
    }
    assert_eq!(handed, vec![1, 2, 3]);
    assert_eq!(g.list_processes(), Vec::<i32>::new());
}

#[test]
fn clear_stops_at_first_failure() {
    let mut g = ExclusionGroup::from_listing(&vec![1, 2, 3]);
    assert_eq!(g.clear_start(), Some(1));
    assert_eq!(g.clear_step(true), Ok(Some(2)));
    assert_eq!(g.clear_step(false), Err(Error::RemoveCGroupPid));
    let left = g.list_processes();
    assert_eq!(left, vec![2, 3]);
    assert!(left.contains(&3));
}

#[test]
fn clear_empty_group_hands_out_nothing() {
    let g = ExclusionGroup::new();
    assert_eq!(g.clear_start(), None);
}

#[test]
fn notify_backend_failure_is_internal() {
    assert_eq!(
        notify_start(Err("no resolver".to_string()), 2),
        NotifyStep::Finish(Err(dns::Error::Internal("no resolver".to_string())))
    );
}

#[test]
fn notify_calls_observers_in_order() {
    assert_eq!(notify_start(Ok(()), 3), NotifyStep::Call(0));
    assert_eq!(notify_next(0, 3, true), NotifyStep::Call(1));
    assert_eq!(notify_next(1, 3, true), NotifyStep::Call(2));
    assert_eq!(notify_next(2, 3, true), NotifyStep::Finish(Ok(())));
}

#[test]
fn notify_stops_at_failed_observer() {
    assert_eq!(notify_next(0, 3, false), NotifyStep::Finish(Err(dns::Error::Notification)));
}

#[test]
fn notify_without_observers_finishes() {
    assert_eq!(notify_start(Ok(()), 0), NotifyStep::Finish(Ok(())));
}

#[test]
fn from_listing_drops_repeats() {
    let g = ExclusionGroup::from_listing(&vec![4, 4, 9]);
    assert_eq!(g.list_processes(), vec![4, 9]);
}

#[test]
fn registry_empty_appends_default_entry_once() {
    let mut table = RoutingTable::new();
    let write = table.ensure_table_registered(b"").unwrap();
    assert_eq!(write, b"19 mullvad_exclusions\n".to_vec());
    assert_eq!(table.table_id, 19);
    let mut registry: Vec<u8> = Vec::new();
    registry.extend_from_slice(&write);
    let again = table.ensure_table_registered(&registry).unwrap();
    assert!(again.is_empty());
    assert_eq!(table.table_id, 19);
}

#[test]
fn registry_conflict_adopts_existing_id() {
    let mut table = RoutingTable::new();
    let write = table.ensure_table_registered(b"42 mullvad_exclusions\n").unwrap();
    assert!(write.is_empty());
    assert_eq!(table.table_id, 42);
    let rule = table.routing_rule();
    assert_eq!(rule.table, 42);
    assert_eq!(rule.fwmark, NETCLS_CLASSID);
}

#[test]
fn registry_skips_malformed_lines() {
    let mut table = RoutingTable::new();
    let registry = b"# reserved values\n\nabc mullvad_exclusions\n255\tlocal\n  77  mullvad_exclusions\n";
    let write = table.ensure_table_registered(registry).unwrap();
    assert!(write.is_empty());
    assert_eq!(table.table_id, 77);
}

#[test]
fn registry_without_trailing_newline_gets_separator() {
    let mut table = RoutingTable::new();
    let write = table.ensure_table_registered(b"255 local").unwrap();
    assert_eq!(write, b"\n19 mullvad_exclusions\n".to_vec());
}

#[test]
fn registry_similar_names_do_not_match() {
    let mut table = RoutingTable::new();
    let write = table
        .ensure_table_registered(b"30 mullvad_exclusions2\n31 mullvad-exclusions\n")
        .unwrap();
    assert_eq!(write, b"19 mullvad_exclusions\n".to_vec());
    assert_eq!(table.table_id, DEFAULT_TABLE_ID);
}

#[test]
fn registry_oversized_id_is_error() {
    let mut table = RoutingTable::new();
    let r = table.ensure_table_registered(b"4294967296 mullvad_exclusions\n");
    assert_eq!(r, Err(Error::RoutingTable));
    assert_eq!(table.table_id, 19);
}

#[test]
fn registry_entry_parts() {
    let (d, n) = registry_entry(b"  12\tmain extra").unwrap();
    assert_eq!(d, b"12".to_vec());
    assert_eq!(n, b"main".to_vec());
    assert!(registry_entry(b"12").is_none());
    assert!(registry_entry(b"x12 main").is_none());
    assert!(registry_entry(b"").is_none());
}

#[test]
fn find_registered_id_takes_first_match() {
    let lines = split_lines(b"5 a\n6 mullvad_exclusions\n7 mullvad_exclusions\n");
    let id = find_registered_id(&lines, &table_name()).unwrap();
    assert_eq!(id, b"6".to_vec());
    assert!(find_registered_id(&lines, b"b").is_none());
}

#[test]
fn digits_to_u32_limits() {
    assert_eq!(digits_to_u32(b"4294967295"), Some(u32::MAX));
    assert_eq!(digits_to_u32(b"4294967296"), None);
    assert_eq!(digits_to_u32(b"007"), Some(7));
}

#[test]
fn listing_keeps_kernel_order() {
    assert_eq!(list_pids(b"1234\n5678\n"), Ok(vec![1234, 5678]));
}

#[test]
fn listing_empty_and_unterminated() {
    assert_eq!(list_pids(b""), Ok(vec![]));
    assert_eq!(list_pids(b"9\n10"), Ok(vec![9, 10]));
}

#[test]
fn listing_bad_line_is_error() {
    assert_eq!(list_pids(b"12\nabc\n"), Err(Error::ListCGroupPids));
    assert_eq!(list_pids(b"12\n\n13\n"), Err(Error::ListCGroupPids));
}

#[test]
fn parse_pid_cases() {
    assert_eq!(parse_pid(b"0"), Some(0));
    assert_eq!(parse_pid(b"+15"), Some(15));
    assert_eq!(parse_pid(b"-15"), Some(-15));
    assert_eq!(parse_pid(b"2147483647"), Some(i32::MAX));
    assert_eq!(parse_pid(b"-2147483648"), Some(i32::MIN));
    assert_eq!(parse_pid(b"2147483648"), None);
    assert_eq!(parse_pid(b"99999999999999999999"), None);
    assert_eq!(parse_pid(b""), None);
    assert_eq!(parse_pid(b"-"), None);
    assert_eq!(parse_pid(b"1 2"), None);
}

#[test]
fn pid_text_round_trips() {
    for v in [0, 7, -7, 1234, i32::MAX, i32::MIN] {
        assert_eq!(pid_text(v), v.to_string().into_bytes());
        assert_eq!(parse_pid(&pid_text(v)), Some(v));
    }
}

#[test]
fn decimal_bytes_values() {
    assert_eq!(decimal_bytes(0), b"0".to_vec());
    assert_eq!(decimal_bytes(19), b"19".to_vec());
    assert_eq!(decimal_bytes(u32::MAX), b"4294967295".to_vec());
}

#[test]
fn split_lines_pieces() {
    assert_eq!(split_lines(b"a\n\nb"), vec![b"a".to_vec(), Vec::new(), b"b".to_vec()]);
    assert_eq!(split_lines(b"\n"), vec![Vec::<u8>::new()]);
    assert!(split_lines(b"").is_empty());
}

#[test]
fn error_messages() {
    assert_eq!(Error::ListCGroupPids.message(), "Unable to obtain PIDs from cgroup.procs");
    assert_eq!(Error::CreateCGroup.message(), "Unable to create cgroup for excluded processes");
    assert_eq!(dns::Error::Notification.message(), "An observer failed");
    assert_eq!(dns::Error::Internal("x".to_string()).message(), "Internal DNS monitor error");
}

#[test]
fn split_command_name() {
    assert_eq!(Split.name(), "split-tunnel");
}

#[test]
fn from_listing_keeps_first_places() {
    let g = ExclusionGroup::from_listing(&vec![9, 4, 9, 1]);
    assert_eq!(g.list_processes(), vec![9, 4, 1]);
}
