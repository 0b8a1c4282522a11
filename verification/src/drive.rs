//! The drive-affinity classifier's portable logic: extracting a device
//! name from a mount source, and grouping input paths by device with a
//! fast/slow tag per group.
//!
//! The platform queries themselves (resolving a path's mount source and
//! reading a device's rotational flag) are I/O and live with the caller;
//! this module turns their answers into groups.

use vstd::prelude::*;
use vstd::string::*;

use crate::strutil::{last_index_of, lemma_last_index_of, rfind_char, str_eq, substring_copy};

verus! {

/// Why a platform query failed; the classifier's caller degrades to
/// treating everything as fast and warns.
#[derive(Debug)]
pub enum Error {
    /// The platform query itself reported a failure, with its message.
    Platform(String),
    /// Reading a device attribute failed, with the failure's message.
    Io(String),
    /// A path could not be handed to the platform query as text.
    PathToStr,
    /// The query's answer was not valid text.
    Utf8,
}

/// The message shown for a classifier error.
pub open spec fn drive_error_msg(e: Error) -> Seq<char> {
    match e {
        Error::Platform(m) => "failed to determine if drive is ssd: "@ + m@,
        Error::Io(m) => "failed to determine if drive is ssd: "@ + m@,
        Error::PathToStr => "failed to determine if drive is ssd: invalid path"@,
        Error::Utf8 => "failed to determine if drive is ssd: invalid path"@,
    }
}

impl Error {
    /// Render the message for this error.
    pub fn message(&self) -> (r: String)
        ensures
            r@ == drive_error_msg(*self),
    {
        match self {
            Error::Platform(m) => {
                let mut s = String::from_str("failed to determine if drive is ssd: ");
                s.append(m.as_str());
                s
            },
            Error::Io(m) => {
                let mut s = String::from_str("failed to determine if drive is ssd: ");
                s.append(m.as_str());
                s
            },
            Error::PathToStr => String::from_str(
                "failed to determine if drive is ssd: invalid path",
            ),
            Error::Utf8 => String::from_str("failed to determine if drive is ssd: invalid path"),
        }
    }
}

/// One device's paths: on a non-rotational drive (fast) or a rotational
/// one (slow).
pub enum PathList<T> {
    Ssd(Vec<T>),
    Hdd(Vec<T>),
}

/// What `extract_device_name` computes: drop a bracketed subvolume
/// suffix, keep what follows the last `/`, and for NVMe devices drop the
/// partition suffix at the last `p`.
pub open spec fn extract_spec(name: Seq<char>) -> Seq<char> {
    let s1 = if last_index_of(name, '[') >= 0 {
        name.subrange(0, last_index_of(name, '['))
    } else {
        name
    };
    let s2 = if last_index_of(s1, '/') >= 0 {
        s1.subrange(last_index_of(s1, '/') + 1, s1.len() as int)
    } else {
        s1
    };
    if s2.len() >= 4 && s2.subrange(0, 4) == "nvme"@ && last_index_of(s2, 'p') >= 0 {
        s2.subrange(0, last_index_of(s2, 'p'))
    } else {
        s2
    }
}

/// Reduce a mount source to its device name: `/dev/sda1` keeps `sda1`,
/// `/dev/nvme0n1p3[/subvol]` becomes `nvme0n1`.
pub fn extract_device_name(name: String) -> (r: String)
    ensures
        r@ == extract_spec(name@),
{
    let s = name.as_str();
    proof {
        lemma_last_index_of(s@, '[');
    }
    let s1 = match rfind_char(s, '[') {
        Some(i) => substring_copy(s, 0, i),
        None => name.clone(),
    };
    proof {
        lemma_last_index_of(s1@, '/');
    }
    let n1 = s1.as_str().unicode_len();
    let s2 = match rfind_char(s1.as_str(), '/') {
        Some(i) => substring_copy(s1.as_str(), i + 1, n1),
        None => s1,
    };
    let n2 = s2.as_str().unicode_len();
    let is_nvme = if n2 >= 4 {
        let pre = substring_copy(s2.as_str(), 0, 4);
        str_eq(pre.as_str(), "nvme")
    } else {
        false
    };
    proof {
        lemma_last_index_of(s2@, 'p');
    }
    if is_nvme {
        match rfind_char(s2.as_str(), 'p') {
            Some(i) => substring_copy(s2.as_str(), 0, i),
            None => s2,
        }
    } else {
        s2
    }
}

/// The accumulated groups: each device's name, whether it is rotational,
/// and its paths in submission order.
pub ghost struct GroupV {
    pub vol: Seq<char>,
    pub rotational: bool,
    pub paths: Seq<Seq<char>>,
}

/// The group already holding a device, or -1.
pub open spec fn find_group(acc: Seq<GroupV>, v: Seq<char>) -> int
    decreases acc.len(),
{
    if acc.len() == 0 {
        -1
    } else if acc[0].vol == v {
        0
    } else if find_group(acc.drop_first(), v) < 0 {
        -1
    } else {
        1 + find_group(acc.drop_first(), v)
    }
}

pub proof fn lemma_find_group(acc: Seq<GroupV>, v: Seq<char>)
    ensures
        -1 <= find_group(acc, v) < acc.len(),
        find_group(acc, v) >= 0 ==> acc[find_group(acc, v)].vol == v && forall|j: int|
            0 <= j < find_group(acc, v) ==> acc[j].vol != v,
        find_group(acc, v) == -1 ==> forall|j: int| 0 <= j < acc.len() ==> acc[j].vol != v,
    decreases acc.len(),
{
    if acc.len() > 0 && acc[0].vol != v {
        lemma_find_group(acc.drop_first(), v);
        assert forall|j: int| 0 < j < acc.len() implies acc.drop_first()[j - 1] == acc[j] by {}
    }
}

/// Group the paths one at a time: a path whose device was already seen
/// joins that device's group; a new device opens a new group tagged with
/// its rotational flag.
pub open spec fn classify_from(
    paths: Seq<Seq<char>>,
    vols: Seq<Seq<char>>,
    rot: Seq<bool>,
    i: int,
    acc: Seq<GroupV>,
) -> Seq<GroupV>
    decreases paths.len() - i,
{
    if i < 0 || i >= paths.len() {
        acc
    } else {
        let g = find_group(acc, vols[i]);
        if g < 0 {
            classify_from(
                paths,
                vols,
                rot,
                i + 1,
                acc.push(GroupV { vol: vols[i], rotational: rot[i], paths: seq![paths[i]] }),
            )
        } else {
            classify_from(
                paths,
                vols,
                rot,
                i + 1,
                acc.update(
                    g,
                    GroupV {
                        vol: acc[g].vol,
                        rotational: acc[g].rotational,
                        paths: acc[g].paths.push(paths[i]),
                    },
                ),
            )
        }
    }
}

/// The groups for a full input: devices in first-seen order, each with
/// its submission-ordered paths.
pub open spec fn classify(paths: Seq<Seq<char>>, vols: Seq<Seq<char>>, rot: Seq<bool>) -> Seq<
    GroupV,
> {
    classify_from(paths, vols, rot, 0, Seq::<GroupV>::empty())
}

/// The view of one executable group.
pub open spec fn group_view(g: PathList<String>) -> (bool, Seq<Seq<char>>) {
    match g {
        PathList::Ssd(ps) => (false, ps@.map(|i: int, p: String| p@)),
        PathList::Hdd(ps) => (true, ps@.map(|i: int, p: String| p@)),
    }
}

/// Find a volume among the seen device names.
fn find_seen(seen: &Vec<String>, vol: &String) -> (r: Option<usize>)
    ensures
        match r {
            Some(g) => g < seen@.len() && seen@[g as int]@ == vol@ && forall|j: int|
                0 <= j < g ==> seen@[j]@ != vol@,
            None => forall|j: int| 0 <= j < seen@.len() ==> seen@[j]@ != vol@,
        },
{
    let mut g: usize = 0;
    while g < seen.len()
        invariant
            g <= seen@.len(),
            forall|j: int| 0 <= j < g ==> seen@[j]@ != vol@,
        decreases seen@.len() - g,
    {
        if str_eq(seen[g].as_str(), vol.as_str()) {
            return Some(g);
        }
        g += 1;
    }
    None
}

/// Partition the paths by underlying device.  `volumes[i]` names the
/// device under `paths[i]` and `rotational[i]` is that device's
/// rotational flag as queried for that path; the first sighting of a
/// device fixes its group's tag.
#[verifier::loop_isolation(false)]
pub fn path_on_fast_drive(
    paths: Vec<String>,
    volumes: Vec<String>,
    rotational: Vec<bool>,
) -> (r: Vec<PathList<String>>)
    requires
        volumes@.len() == paths@.len(),
        rotational@.len() == paths@.len(),
    ensures
        ({
            let cl = classify(
                paths@.map(|i: int, p: String| p@),
                volumes@.map(|i: int, p: String| p@),
                rotational@,
            );
            &&& r@.len() == cl.len()
            &&& forall|g: int|
                0 <= g < cl.len() ==> #[trigger] group_view(r@[g]) == (
                    cl[g].rotational,
                    cl[g].paths,
                )
        }),
{
    let ghost pv = paths@.map(|i: int, p: String| p@);
    let ghost vv = volumes@.map(|i: int, p: String| p@);
    let ghost rv = rotational@;
    let mut groups: Vec<PathList<String>> = Vec::new();
    let mut seen: Vec<String> = Vec::new();
    let ghost mut acc: Seq<GroupV> = Seq::<GroupV>::empty();
    let mut paths = paths;
    let mut volumes = volumes;
    let mut rotational = rotational;
    let ghost mut i: int = 0;
    while paths.len() > 0
        invariant
            0 <= i <= pv.len(),
            paths@.map(|k: int, p: String| p@) =~= pv.subrange(i, pv.len() as int),
            volumes@.map(|k: int, p: String| p@) =~= vv.subrange(i, vv.len() as int),
            rotational@ =~= rv.subrange(i, rv.len() as int),
            classify_from(pv, vv, rv, i, acc) == classify(pv, vv, rv),
            groups@.len() == acc.len(),
            seen@.len() == acc.len(),
            forall|g: int| 0 <= g < acc.len() ==> #[trigger] seen@[g]@ == acc[g].vol,
            forall|g: int|
                0 <= g < acc.len() ==> #[trigger] group_view(groups@[g]) == (
                    acc[g].rotational,
                    acc[g].paths,
                ),
        decreases paths@.len(),
    {
        let ghost pm0 = paths@.map(|k: int, p: String| p@);
        let ghost vm0 = volumes@.map(|k: int, p: String| p@);
        let ghost rm0 = rotational@;
        let path = paths.remove(0);
        let vol = volumes.remove(0);
        let rot_flag = rotational.remove(0);
        proof {
            assert(pm0[0] == pv[i]);
            assert(path@ == pm0[0]);
            assert(vm0[0] == vv[i]);
            assert(vol@ == vm0[0]);
            assert(rot_flag == rm0[0]);
            assert(paths@.map(|k: int, p: String| p@) =~= pm0.drop_first());
            assert(pm0.drop_first() =~= pv.subrange(i + 1, pv.len() as int));
            assert(volumes@.map(|k: int, p: String| p@) =~= vm0.drop_first());
            assert(vm0.drop_first() =~= vv.subrange(i + 1, vv.len() as int));
            assert(rotational@ =~= rv.subrange(i + 1, rv.len() as int));
            lemma_find_group(acc, vv[i]);
        }
        match find_seen(&seen, &vol) {
            Some(g) => {
                proof {
                    assert(acc[g as int].vol == vv[i]) by {
                        assert(seen@[g as int]@ == acc[g as int].vol);
                    }
                    assert forall|j: int| 0 <= j < g implies acc[j].vol != vv[i] by {
                        assert(seen@[j]@ == acc[j].vol);
                        assert(seen@[j]@ != vol@);
                    }
                    let fg = find_group(acc, vv[i]);
                    if fg < g {
                        assert(acc[fg].vol == vv[i]);
                    } else if fg > g {
                        assert(acc[g as int].vol != vv[i]);
                    }
                    assert(find_group(acc, vv[i]) == g);
                }
                let ghost accg = acc[g as int];
                let ghost groups0 = groups@;
                let mut slot = groups.remove(g);
                proof {
                    assert(group_view(slot) == (accg.rotational, accg.paths));
                }
                match &mut slot {
                    PathList::Ssd(ps) => {
                        let ghost ps0 = ps@;
                        ps.push(path);
                        proof {
                            assert(ps@.map(|k: int, p: String| p@) =~= ps0.map(
                                |k: int, p: String| p@,
                            ).push(pv[i]));
                        }
                    },
                    PathList::Hdd(ps) => {
                        let ghost ps0 = ps@;
                        ps.push(path);
                        proof {
                            assert(ps@.map(|k: int, p: String| p@) =~= ps0.map(
                                |k: int, p: String| p@,
                            ).push(pv[i]));
                        }
                    },
                }
                proof {
                    assert(group_view(slot) == (accg.rotational, accg.paths.push(pv[i])));
                }
                groups.insert(g, slot);
                proof {
                    assert(groups@ =~= groups0.update(g as int, slot));
                    acc = acc.update(
                        g as int,
                        GroupV {
                            vol: accg.vol,
                            rotational: accg.rotational,
                            paths: accg.paths.push(pv[i]),
                        },
                    );
                    i = i + 1;
                }
            },
            None => {
                proof {
                    assert forall|j: int| 0 <= j < acc.len() implies acc[j].vol != vv[i] by {
                        assert(seen@[j]@ == acc[j].vol);
                        assert(seen@[j]@ != vol@);
                    }
                    let fg = find_group(acc, vv[i]);
                    if fg >= 0 {
                        assert(acc[fg].vol == vv[i]);
                    }
                    assert(find_group(acc, vv[i]) == -1);
                }
                let mut single: Vec<String> = Vec::new();
                single.push(path);
                let group = if rot_flag {
                    PathList::Hdd(single)
                } else {
                    PathList::Ssd(single)
                };
                proof {
                    assert(group_view(group) == (rv[i], seq![pv[i]])) by {
                        match group {
                            PathList::Ssd(ps) => {
                                assert(ps@.map(|k: int, p: String| p@) =~= seq![pv[i]]);
                            },
                            PathList::Hdd(ps) => {
                                assert(ps@.map(|k: int, p: String| p@) =~= seq![pv[i]]);
                            },
                        }
                    }
                }
                groups.push(group);
                seen.push(vol);
                proof {
                    acc = acc.push(
                        GroupV { vol: vv[i], rotational: rv[i], paths: seq![pv[i]] },
                    );
                    i = i + 1;
                }
            },
        }
    }
    groups
}

} // verus!
