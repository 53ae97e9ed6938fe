//! Kernel feature probes and environment checks: what their results mean.
use vstd::prelude::*;
use vstd::string::*;

use crate::mountinfo::{first_with_id, mount_views, MountInfoView, MountTable, Propagation};
use crate::parse::{lines, lines_of, split_at_first, split_first, trim_text, trimmed};
use crate::sys::{PROC_SUPER_MAGIC, STATX_ATTR_MOUNT_ROOT, STATX_MNT_ID, STATX_MNT_ID_UNIQUE};
use crate::text::{decimal, hexadecimal, push_decimal, push_hexadecimal, texts};

verus! {

/// `ENOSYS`.
pub const ENOSYS: i32 = 38;

/// Result of probing one feature.
#[derive(Debug, Clone, Copy, PartialEq, Eq, Structural)]
pub enum Feature {
    /// Available.
    Available,
    /// The kernel does not implement it.
    Missing,
}

/// A feature that is there, or not.
pub open spec fn feature_if(there: bool) -> Feature {
    if there {
        Feature::Available
    } else {
        Feature::Missing
    }
}

impl Feature {
    /// Classifies the error from a probe call made with deliberately invalid
    /// arguments. Only `ENOSYS` means the syscall is missing; anything else
    /// (`EINVAL`, `EBADF`, or `EPERM` from a capability check that runs before
    /// argument validation) means it exists. A seccomp filter that returns
    /// `EPERM` cannot be told apart and surfaces when the call is used.
    pub fn from_probe_error(raw_os_error: Option<i32>) -> (r: Self)
        ensures
            r == feature_if(raw_os_error != Some(ENOSYS)),
    {
        match raw_os_error {
            Some(e) => if e == ENOSYS {
                Feature::Missing
            } else {
                Feature::Available
            },
            None => Feature::Available,
        }
    }

    /// Whether the feature can be used.
    pub fn is_available(self) -> (r: bool)
        ensures
            r == (self == Feature::Available),
    {
        match self {
            Feature::Available => true,
            Feature::Missing => false,
        }
    }

    /// How the feature is reported.
    pub fn as_str(&self) -> (r: &'static str)
        ensures
            r@ == (match self {
                Feature::Available => "ok"@,
                Feature::Missing => "missing"@,
            }),
    {
        match self {
            Feature::Available => "ok",
            Feature::Missing => "missing",
        }
    }
}

/// Kernel features Byssus relies on.
#[derive(Debug, Clone, Copy, PartialEq, Eq, Structural)]
pub struct KernelFeatures {
    /// `open_tree` (5.2).
    pub open_tree: Feature,
    /// `move_mount` (5.2).
    pub move_mount: Feature,
    /// `openat2` with `RESOLVE_*` (5.6).
    pub openat2: Feature,
    /// `mount_setattr` (5.12).
    pub mount_setattr: Feature,
    /// `statx` `STATX_MNT_ID` (5.8).
    pub statx_mnt_id: Feature,
    /// `statx` `STATX_ATTR_MOUNT_ROOT` (5.8).
    pub statx_mount_root: Feature,
    /// `statx` `STATX_MNT_ID_UNIQUE` (6.8). Optional.
    pub statx_mnt_id_unique: Feature,
}

/// The views of a list of named features.
pub open spec fn named_views(features: Seq<(&'static str, Feature)>) -> Seq<(Seq<char>, Feature)> {
    features.map_values(|f: (&'static str, Feature)| (f.0@, f.1))
}

/// Required features by name.
pub open spec fn required_features(k: KernelFeatures) -> Seq<(Seq<char>, Feature)> {
    seq![
        ("open_tree"@, k.open_tree),
        ("move_mount"@, k.move_mount),
        ("openat2"@, k.openat2),
        ("mount_setattr"@, k.mount_setattr),
        ("statx_mnt_id"@, k.statx_mnt_id),
        ("statx_mount_root"@, k.statx_mount_root),
    ]
}

/// The features among them that are missing, in order.
pub open spec fn missing_of(features: Seq<(Seq<char>, Feature)>) -> Seq<(Seq<char>, Feature)>
    decreases features.len(),
{
    if features.len() == 0 {
        Seq::empty()
    } else {
        let front = missing_of(features.drop_last());
        if features.last().1 == Feature::Missing {
            front.push(features.last())
        } else {
            front
        }
    }
}

impl KernelFeatures {
    /// Required features, by name, that are not available.
    pub fn missing_required(&self) -> (r: Vec<(&'static str, Feature)>)
        ensures
            named_views(r@) == missing_of(required_features(*self)),
    {
        let all = self.required();
        let ghost views = required_features(*self);
        let mut out: Vec<(&'static str, Feature)> = Vec::new();
        let mut i: usize = 0;
        assert(named_views(out@) =~= missing_of(views.take(0)));
        while i < all.len()
            invariant
                i <= all@.len(),
                views == named_views(all@),
                named_views(out@) == missing_of(views.take(i as int)),
            decreases all@.len() - i,
        {
            let (name, feature) = all[i];
            let ghost before = named_views(out@);
            proof {
                assert(views.take(i + 1).drop_last() =~= views.take(i as int));
                assert(views.take(i + 1).last() == (name@, feature));
            }
            if !feature.is_available() {
                out.push((name, feature));
                assert(named_views(out@) =~= before.push((name@, feature)));
            }
            i += 1;
        }
        assert(views.take(views.len() as int) =~= views);
        out
    }

    /// Required features by name.
    pub fn required(&self) -> (r: Vec<(&'static str, Feature)>)
        ensures
            named_views(r@) == required_features(*self),
    {
        let mut out: Vec<(&'static str, Feature)> = Vec::new();
        out.push(("open_tree", self.open_tree));
        out.push(("move_mount", self.move_mount));
        out.push(("openat2", self.openat2));
        out.push(("mount_setattr", self.mount_setattr));
        out.push(("statx_mnt_id", self.statx_mnt_id));
        out.push(("statx_mount_root", self.statx_mount_root));
        assert(named_views(out@) =~= required_features(*self));
        out
    }

    /// Whether unique mount IDs can be used.
    pub fn unique_mount_ids(&self) -> (r: bool)
        ensures
            r == (self.statx_mnt_id_unique == Feature::Available),
    {
        self.statx_mnt_id_unique.is_available()
    }
}

/// What `statx` on the root directory says.
#[derive(Debug, Clone, Copy, PartialEq, Eq, Structural)]
pub struct StatxProbe {
    /// Which fields the kernel filled in.
    pub mask: u32,
    /// Which attributes the kernel knows.
    pub attributes_mask: u64,
}

/// What came of asking `statx` for the unique mount ID.
#[derive(Debug, Clone, Copy, PartialEq, Eq, Structural)]
pub enum UniqueProbe {
    /// Which fields the kernel filled in.
    Mask(u32),
    /// The call failed with this error number, if it has one.
    Failed(Option<i32>),
}

/// What `statx` supports: mount IDs, mount roots, unique mount IDs. `statx`
/// itself exists on every supported kernel; failing on the root directory means
/// that none of them can be used.
pub fn probe_statx(plain: Option<StatxProbe>, unique: UniqueProbe) -> (r: (Feature, Feature, Feature))
    ensures
        r == (match plain {
            None => (Feature::Missing, Feature::Missing, Feature::Missing),
            Some(st) => (
                feature_if(st.mask & STATX_MNT_ID != 0),
                feature_if(st.attributes_mask & STATX_ATTR_MOUNT_ROOT != 0),
                match unique {
                    UniqueProbe::Mask(mask) => feature_if(mask & STATX_MNT_ID_UNIQUE != 0),
                    UniqueProbe::Failed(e) => feature_if(e != Some(ENOSYS)),
                },
            ),
        }),
{
    match plain {
        None => (Feature::Missing, Feature::Missing, Feature::Missing),
        Some(st) => {
            let mnt_id = if st.mask & STATX_MNT_ID != 0 {
                Feature::Available
            } else {
                Feature::Missing
            };
            let mount_root = if st.attributes_mask & STATX_ATTR_MOUNT_ROOT != 0 {
                Feature::Available
            } else {
                Feature::Missing
            };
            let id_unique = match unique {
                UniqueProbe::Mask(mask) => if mask & STATX_MNT_ID_UNIQUE != 0 {
                    Feature::Available
                } else {
                    Feature::Missing
                },
                UniqueProbe::Failed(e) => Feature::from_probe_error(e),
            };
            (mnt_id, mount_root, id_unique)
        },
    }
}

/// Whether a line says that a seccomp filter is active.
pub open spec fn says_filtered(line: Seq<char>) -> bool {
    split_first(line, ':') matches Some((key, value)) && key == "Seccomp"@ && trimmed(value) == "2"@
}

/// Whether a process runs under a seccomp filter (`Seccomp: 2` in its status
/// file). Used to explain a missing feature: a filter can make a syscall
/// return `ENOSYS` on a kernel that supports it.
pub fn seccomp_filter_active(status: &str) -> (r: bool)
    ensures
        r == exists|i: int| 0 <= i < lines(status@).len() && says_filtered(#[trigger] lines(status@)[i]),
{
    let all = lines_of(status);
    let ghost views = lines(status@);
    let mut i: usize = 0;
    while i < all.len()
        invariant
            i <= all@.len(),
            views == texts(all@),
            views == lines(status@),
            forall|j: int| 0 <= j < i ==> !says_filtered(#[trigger] views[j]),
        decreases all@.len() - i,
    {
        assert(views[i as int] == all@[i as int]@);
        if let Some((key, value)) = split_at_first(all[i].as_str(), ':') {
            if crate::text::same(key.as_str(), "Seccomp") && crate::text::same(
                trim_text(value.as_str()).as_str(),
                "2",
            ) {
                assert(says_filtered(views[i as int]));
                return true;
            }
        }
        i += 1;
    }
    false
}

/// Explanation where a seccomp filter is active.
pub const FILTERED_HINT: &'static str = "blocked by this process's seccomp filter, or not supported by the kernel (Linux 5.12 or newer is required). Under systemd, check for SystemCallFilter= changes and do not use RestrictSUIDSGID=, which blocks openat2";

/// Explanation where none is.
pub const KERNEL_HINT: &'static str = "Linux 5.12 or newer is required";

/// Explains why required features are unavailable.
pub fn missing_features_hint(seccomp_filtered: bool) -> (r: &'static str)
    ensures
        r@ == (if seccomp_filtered {
            FILTERED_HINT@
        } else {
            KERNEL_HINT@
        }),
{
    if seccomp_filtered {
        FILTERED_HINT
    } else {
        KERNEL_HINT
    }
}

/// Checks that a filesystem is procfs, from its type as `fstatfs` gives it.
pub fn check_procfs(f_type: u64) -> (r: Result<(), String>)
    ensures
        match r {
            Ok(_) => f_type == PROC_SUPER_MAGIC,
            Err(e) => f_type != PROC_SUPER_MAGIC && e@ == "not a procfs filesystem (f_type 0x"@
                + hexadecimal(f_type as nat) + ")"@,
        },
{
    if f_type == PROC_SUPER_MAGIC {
        return Ok(());
    }
    let mut out = String::new();
    out.append("not a procfs filesystem (f_type 0x");
    push_hexadecimal(&mut out, f_type);
    out.append(")");
    assert(out@ =~= "not a procfs filesystem (f_type 0x"@ + hexadecimal(f_type as nat) + ")"@);
    Err(out)
}

/// Outcome of checking a target root's propagation.
#[derive(Debug, PartialEq, Eq)]
pub enum PropagationCheck {
    /// The mount is shared: views propagate to `rslave` consumers.
    Shared,
    /// The mount is private: host-only use works; consumers see nothing.
    Private,
    /// The mount is only a slave: almost certainly a non-host mount namespace.
    SlaveOnly,
    /// The mount is unbindable.
    Unbindable,
    /// The mount could not be found or inspected.
    Unknown(String),
}

/// What a propagation check stands for.
#[verifier::ext_equal]
pub enum PropagationCheckView {
    /// The mount is shared.
    Shared,
    /// The mount is private.
    Private,
    /// The mount is only a slave.
    SlaveOnly,
    /// The mount is unbindable.
    Unbindable,
    /// The mount could not be found or inspected.
    Unknown(Seq<char>),
}

impl View for PropagationCheck {
    type V = PropagationCheckView;

    open spec fn view(&self) -> PropagationCheckView {
        match self {
            PropagationCheck::Shared => PropagationCheckView::Shared,
            PropagationCheck::Private => PropagationCheckView::Private,
            PropagationCheck::SlaveOnly => PropagationCheckView::SlaveOnly,
            PropagationCheck::Unbindable => PropagationCheckView::Unbindable,
            PropagationCheck::Unknown(s) => PropagationCheckView::Unknown(s@),
        }
    }
}

impl PropagationCheckView {
    /// A human-readable description.
    pub open spec fn text(self) -> Seq<char> {
        match self {
            PropagationCheckView::Shared => "shared"@,
            PropagationCheckView::Private =>
                "private (mounts will not reach containers via rslave)"@,
            PropagationCheckView::SlaveOnly =>
                "slave only (the daemon appears to run in a non-host mount namespace; mounts will be invisible outside it)"@,
            PropagationCheckView::Unbindable => "unbindable (mounts will not reach containers)"@,
            PropagationCheckView::Unknown(reason) => "unknown ("@ + reason + ")"@,
        }
    }
}

impl PropagationCheck {
    /// A human-readable description.
    pub fn describe(&self) -> (r: String)
        ensures
            r@ == self@.text(),
    {
        match self {
            PropagationCheck::Shared => "shared".to_owned(),
            PropagationCheck::Private =>
                "private (mounts will not reach containers via rslave)".to_owned(),
            PropagationCheck::SlaveOnly =>
                "slave only (the daemon appears to run in a non-host mount namespace; mounts will be invisible outside it)".to_owned(),
            PropagationCheck::Unbindable =>
                "unbindable (mounts will not reach containers)".to_owned(),
            PropagationCheck::Unknown(reason) => {
                let mut out = String::new();
                out.append("unknown (");
                out.append(reason.as_str());
                out.append(")");
                assert(out@ =~= self@.text());
                out
            },
        }
    }
}

/// What came of asking for the mount ID of a target root.
#[derive(Debug)]
pub enum MountIdOutcome {
    /// Its mount ID.
    Id(u64),
    /// The kernel reported none.
    NotReported,
    /// The call failed.
    Failed(String),
}

/// What the mount table says of a mount.
pub open spec fn propagation_check(mounts: Seq<MountInfoView>, id: u64) -> PropagationCheckView {
    match first_with_id(mounts, id) {
        None => PropagationCheckView::Unknown(
            "mount ID "@ + decimal(id as nat) + " not found in mountinfo"@,
        ),
        Some(m) => match m.propagation {
            Propagation::Shared { .. } => PropagationCheckView::Shared,
            Propagation::SharedAndSlave { .. } => PropagationCheckView::Shared,
            Propagation::Private => PropagationCheckView::Private,
            Propagation::Slave { .. } => PropagationCheckView::SlaveOnly,
            Propagation::Unbindable => PropagationCheckView::Unbindable,
        },
    }
}

/// Classifies the propagation of the mount with that ID.
pub fn classify(table: &MountTable, mount_id: u64) -> (r: PropagationCheck)
    ensures
        r@ == propagation_check(mount_views(table.mounts@), mount_id),
{
    match table.by_id(mount_id) {
        None => {
            let mut out = String::new();
            out.append("mount ID ");
            push_decimal(&mut out, mount_id);
            out.append(" not found in mountinfo");
            assert(out@ =~= "mount ID "@ + decimal(mount_id as nat) + " not found in mountinfo"@);
            PropagationCheck::Unknown(out)
        },
        Some(m) => match m.propagation {
            Propagation::Shared { .. } => PropagationCheck::Shared,
            Propagation::SharedAndSlave { .. } => PropagationCheck::Shared,
            Propagation::Private => PropagationCheck::Private,
            Propagation::Slave { .. } => PropagationCheck::SlaveOnly,
            Propagation::Unbindable => PropagationCheck::Unbindable,
        },
    }
}

/// Checks the propagation of the mount containing a target root.
pub fn check_propagation(outcome: MountIdOutcome, table: &MountTable) -> (r: PropagationCheck)
    ensures
        r@ == (match outcome {
            MountIdOutcome::Id(id) => propagation_check(mount_views(table.mounts@), id),
            MountIdOutcome::NotReported => PropagationCheckView::Unknown(
                "kernel did not report mount ID"@,
            ),
            MountIdOutcome::Failed(e) => PropagationCheckView::Unknown(e@),
        }),
{
    match outcome {
        MountIdOutcome::Id(id) => classify(table, id),
        MountIdOutcome::NotReported => PropagationCheck::Unknown(
            "kernel did not report mount ID".to_owned(),
        ),
        MountIdOutcome::Failed(e) => PropagationCheck::Unknown(e),
    }
}

// Laws.

/// The required features that are reported missing are exactly those that the
/// probe found missing, each under its own name.
pub proof fn law_missing_features_are_named(k: KernelFeatures, name: Seq<char>, feature: Feature)
    ensures
        missing_of(required_features(k)).contains((name, feature)) <==> feature == Feature::Missing
            && {
            ||| name == "open_tree"@ && k.open_tree == Feature::Missing
            ||| name == "move_mount"@ && k.move_mount == Feature::Missing
            ||| name == "openat2"@ && k.openat2 == Feature::Missing
            ||| name == "mount_setattr"@ && k.mount_setattr == Feature::Missing
            ||| name == "statx_mnt_id"@ && k.statx_mnt_id == Feature::Missing
            ||| name == "statx_mount_root"@ && k.statx_mount_root == Feature::Missing
        },
{
    let all = required_features(k);
    lemma_missing_of(all, (name, feature));
    if all.contains((name, feature)) {
        let i = choose|i: int| 0 <= i < all.len() && all[i] == (name, feature);
        assert(all[i] == (name, feature));
    }
    assert(all[0] == ("open_tree"@, k.open_tree));
    assert(all[1] == ("move_mount"@, k.move_mount));
    assert(all[2] == ("openat2"@, k.openat2));
    assert(all[3] == ("mount_setattr"@, k.mount_setattr));
    assert(all[4] == ("statx_mnt_id"@, k.statx_mnt_id));
    assert(all[5] == ("statx_mount_root"@, k.statx_mount_root));
}

proof fn lemma_missing_of(features: Seq<(Seq<char>, Feature)>, f: (Seq<char>, Feature))
    ensures
        missing_of(features).contains(f) <==> features.contains(f) && f.1 == Feature::Missing,
    decreases features.len(),
{
    if features.len() > 0 {
        let front = features.drop_last();
        let before = missing_of(front);
        let all = missing_of(features);
        lemma_missing_of(front, f);
        assert(features[features.len() - 1] == features.last());
        if front.contains(f) {
            let i = choose|i: int| 0 <= i < front.len() && front[i] == f;
            assert(features[i] == f);
        }
        if features.contains(f) && f != features.last() {
            let i = choose|i: int| 0 <= i < features.len() && features[i] == f;
            assert(front[i] == f);
        }
        if before.contains(f) {
            let i = choose|i: int| 0 <= i < before.len() && before[i] == f;
            assert(all[i] == f);
        }
        if all.contains(f) {
            let i = choose|i: int| 0 <= i < all.len() && all[i] == f;
            if i < before.len() {
                assert(before[i] == f);
            }
        }
        if all.len() > before.len() {
            assert(all[before.len() as int] == features.last());
        }
    } else {
        assert(!missing_of(features).contains(f));
        assert(!features.contains(f));
    }
}

/// Mounts reach other namespaces exactly where the mount they are made on is in
/// a peer group, whether or not it also receives from another. A mount that is
/// not in the table is never taken for shared.
pub proof fn law_only_peers_share(mounts: Seq<MountInfoView>, id: u64)
    ensures
        propagation_check(mounts, id) is Shared <==> (first_with_id(mounts, id) matches Some(m) && (
        m.propagation is Shared || m.propagation is SharedAndSlave)),
        first_with_id(mounts, id) matches Some(m) ==> {
            &&& m.propagation is Private ==> propagation_check(mounts, id) is Private
            &&& m.propagation is Slave ==> propagation_check(mounts, id) is SlaveOnly
            &&& m.propagation is Unbindable ==> propagation_check(mounts, id) is Unbindable
        },
        first_with_id(mounts, id) is None ==> propagation_check(mounts, id) is Unknown,
{
}

/// A feature is there exactly if the kernel said so.
pub proof fn law_features_are_there_or_missing(there: bool)
    ensures
        feature_if(there) is Available <==> there,
        feature_if(there) is Missing <==> !there,
{
}

/// System calls are filtered exactly if the line on seccomp says 2, with blanks
/// around it or none; no other line tells it.
pub proof fn law_filters_are_told_by_their_mode(key: Seq<char>, mode: char)
    requires
        !key.contains(':'),
        '0' <= mode <= '9',
    ensures
        says_filtered(key + seq![':'] + seq!['\t', mode]) <==> key == "Seccomp"@ && mode == '2',
        says_filtered(key + seq![':'] + seq![mode]) <==> key == "Seccomp"@ && mode == '2',
        !says_filtered(key),
{
    reveal_strlit("2");
    assert("2"@ =~= seq!['2']);
    let plain = seq![mode];
    let led = seq!['\t', mode];
    crate::parse::law_texts_are_split_at_the_first(key, ':', plain);
    crate::parse::law_texts_are_split_at_the_first(key, ':', led);
    reveal_with_fuel(crate::parse::trimmed_end, 2);
    reveal_with_fuel(crate::parse::trimmed_start, 2);
    assert(plain.last() == mode && plain[0] == mode);
    assert(led.last() == mode && led[0] == '\t');
    assert(led.drop_first() =~= plain);
    assert(trimmed(plain) == plain);
    assert(trimmed(led) == plain);
    if plain == "2"@ {
        assert(plain[0] == '2');
    }
}

} // verus!
