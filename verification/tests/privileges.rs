//! Planning, applying and verifying privilege changes.
use byssus::privileges::apply::{
    bounding_drops, check_applied, describe_caps, last_capability, verify, ApplyError, ProcStatus,
};
use byssus::privileges::plan::{
    plan, CapabilitySets, Credentials, FinalGroups, Goal, Op, PlanError, PrivilegePlan, Request,
    ServiceUser, Warning, CAP_SETGID, CAP_SETPCAP, CAP_SETUID, CAP_SYS_ADMIN, LOCKED_SECURE_BITS,
};


const STATUS: &str = "\
Name:\tbyssusd
Umask:\t0022
State:\tS (sleeping)
Uid:\t991\t991\t991\t991
Gid:\t991\t991\t991\t991
Groups:\t500
Threads:\t1
CapInh:\t0000000000000000
CapPrm:\t0000000000200000
CapEff:\t0000000000200000
CapBnd:\t0000000000200000
CapAmb:\t0000000000000000
NoNewPrivs:\t1
Seccomp:\t2
";

fn applied_plan(final_uid: u32, with_bounding: bool) -> PrivilegePlan {
    let mut ops = vec![Op::ClearAmbient];
    if with_bounding {
        ops.push(Op::DropBoundingExcept(CAP_SYS_ADMIN));
        ops.push(Op::SetSecureBits(LOCKED_SECURE_BITS));
    }
    PrivilegePlan {
        ops,
        warnings: vec![],
        final_uid,
        final_caps: CAP_SYS_ADMIN,
        final_groups: None,
    }
}

#[test]
fn parses_status() {
    let s = ProcStatus::parse(STATUS).unwrap();
    assert_eq!(s.uids, [991; 4]);
    assert_eq!(s.threads, 1);
    assert_eq!(s.cap_effective, 1 << 21);
    assert!(s.no_new_privs);
    let creds = s.credentials();
    assert_eq!(creds.uids, [991; 3]);
    assert_eq!(creds.caps.permitted, CAP_SYS_ADMIN);
}

#[test]
fn parse_errors() {
    assert!(ProcStatus::parse("Uid:\t1\t2\t3\t4\n").is_err());
    assert!(
        ProcStatus::parse(&STATUS.replace("Uid:\t991\t991\t991\t991", "Uid:\t991")).is_err()
    );
    assert!(
        ProcStatus::parse(&STATUS.replace("CapEff:\t0000000000200000", "CapEff:\tzz")).is_err()
    );
}


#[test]
fn verify_accepts_expected_state() {
    let s = ProcStatus::parse(STATUS).unwrap();
    assert_eq!(verify(&applied_plan(991, true), &s), Ok(()));
}

#[test]
fn verify_reports_each_problem() {
    let base = ProcStatus::parse(STATUS).unwrap();
    let check = |mutate: &dyn Fn(&mut ProcStatus), with_bounding: bool, needle: &str| {
        let mut s = copy(&base);
        mutate(&mut s);
        let err = verify(&applied_plan(991, with_bounding), &s).unwrap_err();
        assert!(err.contains(needle), "{needle}: {err}");
    };
    check(&|s| s.uids[2] = 0, false, "UIDs");
    check(&|s| s.cap_effective |= 1, false, "effective");
    check(&|s| s.cap_permitted |= 1, false, "permitted");
    check(&|s| s.cap_inheritable = 1, false, "inheritable");
    check(&|s| s.cap_ambient = 1, false, "ambient");
    check(&|s| s.no_new_privs = false, false, "no_new_privs");
    check(&|s| s.cap_bounding = u64::MAX, true, "bounding");

    // Bounding set is not checked when it could not be changed.
    let mut s = copy(&base);
    s.cap_bounding = u64::MAX;
    assert_eq!(verify(&applied_plan(991, false), &s), Ok(()));
}

#[test]
fn verify_compares_group_ids() {
    let mut p = applied_plan(991, false);
    p.final_groups = Some(FinalGroups {
        gid: 991,
        groups: vec![991],
    });
    let mut s = ProcStatus::parse(STATUS).unwrap();
    assert_eq!(verify(&p, &s), Ok(()));
    s.gids = [0; 4];
    assert_eq!(
        verify(&p, &s),
        Err("GIDs [0, 0, 0], expected all 991".to_owned())
    );
    s.gids = [991, 991, 0, 991];
    assert_eq!(
        verify(&p, &s),
        Err("GIDs [991, 991, 0], expected all 991".to_owned())
    );
    s.gids = [991, 991, 991, 0];
    assert_eq!(verify(&p, &s), Ok(()));
    p.final_groups = None;
    s.gids = [0; 4];
    assert_eq!(verify(&p, &s), Ok(()));
}

#[test]
fn supplementary_groups_are_compared() {
    let mut p = applied_plan(991, false);
    p.final_groups = Some(FinalGroups {
        gid: 991,
        groups: vec![991, 5, 7],
    });
    let s = ProcStatus::parse(STATUS).unwrap();
    assert_eq!(check_applied(&p, &s, &[5, 7, 991]), Ok(()));
    assert_eq!(
        check_applied(&p, &s, &[0, 991]),
        Err(ApplyError::Verification(
            "supplementary groups [0, 991], expected [991, 5, 7]".to_owned()
        ))
    );
    p.final_groups = None;
    assert_eq!(check_applied(&p, &s, &[0]), Ok(()));
}

#[test]
fn describes_caps() {
    assert_eq!(describe_caps(0), "none");
    assert_eq!(describe_caps(CAP_SYS_ADMIN), "cap_sys_admin");
    assert_eq!(
        describe_caps(CAP_SYS_ADMIN | (1)),
        "cap_chown,cap_sys_admin"
    );
    assert_eq!(
        describe_caps((1 << 50)),
        "cap_50"
    );
}

fn copy(s: &ProcStatus) -> ProcStatus {
    ProcStatus {
        uids: s.uids,
        gids: s.gids,
        threads: s.threads,
        cap_inheritable: s.cap_inheritable,
        cap_permitted: s.cap_permitted,
        cap_effective: s.cap_effective,
        cap_bounding: s.cap_bounding,
        cap_ambient: s.cap_ambient,
        no_new_privs: s.no_new_privs,
    }
}


fn caps(effective: u64, permitted: u64) -> CapabilitySets {
    CapabilitySets {
        effective,
        permitted,
        inheritable: 0,
    }
}

fn creds(uid: u32, sets: CapabilitySets) -> Credentials {
    Credentials {
        uids: [uid; 3],
        caps: sets,
    }
}

fn user() -> ServiceUser {
    ServiceUser {
        name: "byssus".into(),
        uid: 991,
        gid: 991,
        groups: vec![],
    }
}

fn request(goal: Goal, user: Option<ServiceUser>, allow_root: bool) -> Request {
    Request {
        goal,
        user,
        allow_root,
    }
}

const SYS_ADMIN: u64 = CAP_SYS_ADMIN;
const CAP_DAC_OVERRIDE: u64 = 0x2;
const CAP_NET_ADMIN: u64 = 0x1000;
const ALL_CAPS: u64 = 0x1ff_ffff_ffff;

fn keep_final(set: u64) -> Op {
    Op::SetCaps(caps(set, set))
}

#[test]
fn systemd_launch_only_sys_admin() {
    let current = creds(991, caps(SYS_ADMIN, SYS_ADMIN));
    let p = plan(&current, &request(Goal::KeepSysAdmin, None, false)).unwrap();
    assert_eq!(
        p.ops,
        [Op::ClearAmbient, keep_final(SYS_ADMIN), Op::SetNoNewPrivs]
    );
    assert_eq!(p.final_uid, 991);
    assert_eq!(p.final_caps, SYS_ADMIN);
    assert!(p.warnings.is_empty());
}

#[test]
fn setcap_launch_with_extra_caps_drops_them() {
    let extra = SYS_ADMIN | CAP_NET_ADMIN | CAP_DAC_OVERRIDE;
    let current = creds(1000, caps(extra, extra));
    let p = plan(&current, &request(Goal::KeepSysAdmin, None, false)).unwrap();
    assert_eq!(
        p.ops,
        [Op::ClearAmbient, keep_final(SYS_ADMIN), Op::SetNoNewPrivs]
    );
}

#[test]
fn missing_sys_admin_is_an_error() {
    let current = creds(991, caps(0, 0));
    assert_eq!(
        plan(&current, &request(Goal::KeepSysAdmin, None, false)),
        Err(PlanError::MissingSysAdmin)
    );
}

#[test]
fn root_without_user_refused() {
    let current = creds(0, caps(ALL_CAPS, ALL_CAPS));
    assert_eq!(
        plan(&current, &request(Goal::KeepSysAdmin, None, false)),
        Err(PlanError::RootWithoutUser)
    );
}

#[test]
fn partially_root_uids_count_as_root() {
    let current = Credentials {
        uids: [1000, 1000, 0],
        caps: caps(ALL_CAPS, ALL_CAPS),
    };
    assert_eq!(
        plan(&current, &request(Goal::KeepSysAdmin, None, false)),
        Err(PlanError::RootWithoutUser)
    );
}

#[test]
fn root_with_allow_root_drops_caps_and_locks_bits() {
    let all = ALL_CAPS;
    let current = creds(0, caps(all, all));
    let p = plan(&current, &request(Goal::KeepSysAdmin, None, true)).unwrap();
    assert_eq!(
        p.ops,
        [
            Op::ClearAmbient,
            Op::DropBoundingExcept(SYS_ADMIN),
            Op::SetSecureBits(LOCKED_SECURE_BITS),
            keep_final(SYS_ADMIN),
            Op::SetNoNewPrivs,
        ]
    );
    assert_eq!(p.final_uid, 0);
    assert_eq!(p.final_groups, None);
    assert_eq!(p.warnings, [Warning::RunningAsRoot]);
}

#[test]
fn root_switches_to_service_user() {
    let all = ALL_CAPS;
    let current = creds(0, caps(all, all));
    let mut u = user();
    u.groups = vec![5, 7];
    let p = plan(&current, &request(Goal::KeepSysAdmin, Some(u), false)).unwrap();
    assert_eq!(
        p.ops,
        [
            Op::ClearAmbient,
            Op::DropBoundingExcept(SYS_ADMIN),
            Op::SetSecureBits(LOCKED_SECURE_BITS),
            Op::SetGroups(vec![991, 5, 7]),
            Op::SetResGid(991),
            Op::SetResUid(991),
            keep_final(SYS_ADMIN),
            Op::SetNoNewPrivs,
        ]
    );
    assert_eq!(p.final_uid, 991);
    assert_eq!(
        p.final_groups,
        Some(FinalGroups {
            gid: 991,
            groups: vec![991, 5, 7],
        })
    );
    assert!(p.warnings.is_empty());
}

#[test]
fn primary_group_not_duplicated() {
    let all = ALL_CAPS;
    let current = creds(0, caps(all, all));
    let mut u = user();
    u.groups = vec![3, 991];
    let p = plan(&current, &request(Goal::KeepSysAdmin, Some(u), false)).unwrap();
    assert!(p.ops.contains(&Op::SetGroups(vec![3, 991])));
}

#[test]
fn switch_without_setpcap_uses_keepcaps() {
    let permitted = SYS_ADMIN | CAP_SETUID | CAP_SETGID;
    let current = creds(0, caps(SYS_ADMIN, permitted));
    let p = plan(&current, &request(Goal::KeepSysAdmin, Some(user()), false)).unwrap();
    assert_eq!(
        p.ops,
        [
            Op::ClearAmbient,
            Op::SetCaps(caps(permitted, permitted)),
            Op::SetKeepCaps(true),
            Op::SetGroups(vec![991]),
            Op::SetResGid(991),
            Op::SetResUid(991),
            Op::SetKeepCaps(false),
            keep_final(SYS_ADMIN),
            Op::SetNoNewPrivs,
        ]
    );
}

#[test]
fn needed_caps_raised_to_effective_first() {
    let all = ALL_CAPS;
    let current = creds(0, caps(SYS_ADMIN, all));
    let p = plan(&current, &request(Goal::KeepSysAdmin, Some(user()), false)).unwrap();
    assert_eq!(
        p.ops[1],
        Op::SetCaps(caps(
            SYS_ADMIN | CAP_SETPCAP | CAP_SETUID | CAP_SETGID,
            all
        ))
    );
}

#[test]
fn cannot_switch_without_setuid_or_setgid() {
    let current = creds(0, caps(SYS_ADMIN, SYS_ADMIN | CAP_SETGID));
    assert_eq!(
        plan(&current, &request(Goal::KeepSysAdmin, Some(user()), false)),
        Err(PlanError::CannotSwitchUser {
            user: "byssus".into(),
            missing: "CAP_SETUID"
        })
    );
    let current = creds(0, caps(SYS_ADMIN, SYS_ADMIN | CAP_SETUID));
    assert!(matches!(
        plan(&current, &request(Goal::KeepSysAdmin, Some(user()), false)),
        Err(PlanError::CannotSwitchUser {
            missing: "CAP_SETGID",
            ..
        })
    ));
}

#[test]
fn service_user_must_not_be_root() {
    let all = ALL_CAPS;
    let current = creds(0, caps(all, all));
    let mut u = user();
    u.uid = 0;
    assert_eq!(
        plan(&current, &request(Goal::KeepSysAdmin, Some(u), false)),
        Err(PlanError::ServiceUserIsRoot("byssus".into()))
    );
}

#[test]
fn user_ignored_when_not_root() {
    let current = creds(1000, caps(SYS_ADMIN, SYS_ADMIN));
    let p = plan(&current, &request(Goal::KeepSysAdmin, Some(user()), false)).unwrap();
    assert_eq!(
        p.warnings,
        [Warning::UserNotApplied {
            user: "byssus".into(),
            effective_uid: 1000
        }]
    );
    assert_eq!(p.final_uid, 1000);

    // Already the service user: no warning.
    let current = creds(991, caps(SYS_ADMIN, SYS_ADMIN));
    let p = plan(&current, &request(Goal::KeepSysAdmin, Some(user()), false)).unwrap();
    assert!(p.warnings.is_empty());
}

#[test]
fn drop_all_as_unprivileged_user() {
    let current = creds(1000, caps(0, 0));
    let p = plan(&current, &request(Goal::DropAll, None, false)).unwrap();
    assert_eq!(
        p.ops,
        [
            Op::ClearAmbient,
            keep_final(0),
            Op::SetNoNewPrivs
        ]
    );
    assert_eq!(p.final_caps, 0);
}

#[test]
fn drop_all_as_root_switches_user_or_stays_root_without_error() {
    let all = ALL_CAPS;
    let current = creds(0, caps(all, all));
    let p = plan(&current, &request(Goal::DropAll, Some(user()), false)).unwrap();
    assert_eq!(p.final_uid, 991);
    assert!(
        p.ops
            .contains(&Op::DropBoundingExcept(0))
    );

    let p = plan(&current, &request(Goal::DropAll, None, false)).unwrap();
    assert_eq!(p.final_uid, 0);
    assert!(p.warnings.is_empty());
    assert_eq!(p.ops.last(), Some(&Op::SetNoNewPrivs));
}

#[test]
fn plans_always_end_minimal() {
    let all = ALL_CAPS;
    for current in [
        creds(0, caps(all, all)),
        creds(991, caps(SYS_ADMIN, SYS_ADMIN)),
        creds(0, caps(SYS_ADMIN, all)),
    ] {
        for user in [None, Some(user())] {
            let Ok(p) = plan(&current, &request(Goal::KeepSysAdmin, user, true)) else {
                continue;
            };
            assert_eq!(p.ops[0], Op::ClearAmbient);
            assert_eq!(p.ops[p.ops.len() - 2], keep_final(SYS_ADMIN));
            assert_eq!(p.ops[p.ops.len() - 1], Op::SetNoNewPrivs);
        }
    }
}

#[test]
fn everything_but_what_is_kept_is_dropped() {
    assert_eq!(last_capability("40\n"), Ok(40));
    assert!(last_capability("many\n").is_err());
    let drops = bounding_drops(CAP_SYS_ADMIN, 40);
    assert_eq!(drops.len(), 40);
    assert!(!drops.contains(&CAP_SYS_ADMIN));
}
