//! Verified core of a file-tree hashing and auditing tool.
//!
//! The library models a run over a tree of files: it hashes file contents
//! with a configurable set of digest algorithms, renders and parses the
//! manifest text format, and cross-checks a live stream of hash records
//! against a previously written manifest.
//!
//! The crate root wires the two runs together: `create` walks a tree and
//! produces a manifest; `audit` walks a tree and compares it against one.

pub mod cancel;
pub mod checker;
pub mod drive;
pub mod engine;
pub mod errors;
pub mod hashing;
pub mod laws;
pub mod manifest;
pub mod records;
pub mod strutil;

use vstd::prelude::*;

use crate::cancel::CancelFlag;
use crate::checker::{
    check_spec, feed_spec, header_algs, header_ok, lines_view, version_of, AuditError, Checker,
    ErrKind,
};
use crate::engine::{first_bad_seed, items_view, run, walk, Collector, FsTree, Queue};
use crate::errors::Error;
use crate::hashing::HashType;
use crate::manifest::{now_timestamp, ts_wf, OutFile};
use crate::records::{rec_view, HashData};

verus! {

/// The algorithms a create run actually uses: the configured list, or
/// SHA-256 alone when none was configured.
pub open spec fn effective_algs(hashes: Seq<HashType>) -> Seq<HashType> {
    if hashes.len() == 0 {
        seq![HashType::Sha256]
    } else {
        hashes
    }
}

/// A create run over the given tree: walk every seed, hash every file
/// with every configured algorithm (SHA-256 when none is given), and
/// return the finished manifest.  On any failure no manifest is returned:
/// the partial output is discarded.
pub fn create(
    input: Vec<(String, FsTree)>,
    recursive: bool,
    hashes: Vec<HashType>,
    version: &str,
    empty_dirs: bool,
) -> (r: Result<OutFile, Error>)
    ensures
        ({
            let algs = effective_algs(hashes@);
            let w = walk(items_view(input@), algs, empty_dirs);
            match r {
                Ok(of) => {
                    &&& first_bad_seed(input@, recursive) == -1
                    &&& w.err is None
                    &&& of.wf()
                    &&& of.recs@ == w.recs
                    &&& forall|i: int|
                        0 <= i < of.recs@.len() ==> ((#[trigger] of.recs@[i]).digests matches Some(
                            d,
                        ) ==> d.len() > 0)
                    &&& of.hdr@.version == version@
                    &&& of.hdr@.algs == algs
                    &&& ts_wf(of.hdr@.start)
                    &&& ts_wf(of.hdr@.fin)
                    &&& of.hdr@.fin.len() == of.hdr@.start.len()
                },
                Err(e) => match e {
                    Error::IsDir(p) => {
                        let k = first_bad_seed(input@, recursive);
                        &&& 0 <= k < input@.len()
                        &&& input@[k].1 is Dir
                        &&& !recursive
                        &&& p@ == input@[k].0@
                    },
                    Error::Io(m, p) => {
                        ||| ({
                            let k = first_bad_seed(input@, recursive);
                            &&& 0 <= k < input@.len()
                            &&& input@[k].1 matches FsTree::Unreadable(msg) && m@ == msg@
                            &&& p@ == input@[k].0@
                        })
                        ||| (first_bad_seed(input@, recursive) == -1 && (w.err matches Some(
                            (wm, wp),
                        ) && m@ == wm && p@ == wp))
                    },
                    Error::OutputFinish(_) => first_bad_seed(input@, recursive) == -1 && w.err
                        is None,
                    _ => false,
                },
            }
        }),
{
    let mut hashes = hashes;
    let ghost hashes0 = hashes@;
    if hashes.len() == 0 {
        hashes.push(HashType::Sha256);
        proof {
            assert(hashes@ =~= effective_algs(hashes0));
        }
    }
    let ts = now_timestamp();
    let mut outfile = OutFile::new(version, &hashes, ts.as_str());
    let mut queue = match Queue::new(input, recursive) {
        Ok(q) => q,
        Err(e) => {
            return Err(e);
        },
    };
    let mut flag = CancelFlag::new();
    let mut coll = Collector::new();
    let ghost w = walk(queue.view(), hashes@, empty_dirs);
    match run(&hashes, &mut queue, empty_dirs, &mut coll, &mut flag) {
        Err(e) => Err(e),
        Ok(()) => {
            let mut recs = coll.records;
            proof {
                assert(recs@.map(|i: int, h: HashData| rec_view(h)) =~= w.recs);
            }
            let ghost total = w.recs;
            let ghost hdr0 = outfile.hdr@;
            while recs.len() > 0
                invariant
                    outfile.wf(),
                    outfile.hdr@ == hdr0,
                    total == outfile.recs@ + recs@.map(|i: int, h: HashData| rec_view(h)),
                decreases recs@.len(),
            {
                let ghost rv0 = recs@.map(|i: int, h: HashData| rec_view(h));
                let hd = recs.remove(0);
                proof {
                    assert(rec_view(hd) == rv0[0]);
                    assert(recs@.map(|i: int, h: HashData| rec_view(h)) =~= rv0.drop_first());
                }
                match outfile.handle(hd) {
                    Ok(()) => {
                        proof {
                            assert(total =~= outfile.recs@ + recs@.map(
                                |i: int, h: HashData| rec_view(h),
                            ));
                        }
                    },
                    Err(e) => {
                        return Err(e);
                    },
                }
            }
            proof {
                assert(outfile.recs@ =~= total);
            }
            let fts = now_timestamp();
            match outfile.finish(fts.as_str()) {
                Ok(()) => Ok(outfile),
                Err(e) => Err(e),
            }
        },
    }
}

/// An audit run: parse the manifest's header, walk the given tree hashing
/// every file, and compare the records against the manifest's data lines.
/// Returns the findings, whether the audit failed, and whether the
/// manifest's version token matches this program's.
#[verifier::loop_isolation(false)]
pub fn audit(
    input: Vec<(String, FsTree)>,
    recursive: bool,
    lines: Vec<String>,
    version: &str,
    early: bool,
    empty_dirs: bool,
) -> (r: Result<(Vec<AuditError>, bool, bool), Error>)
    ensures
        ({
            let lv = lines_view(lines@);
            let algs = header_algs(lv);
            let w = walk(items_view(input@), algs, empty_dirs);
            let fed = feed_spec(
                lv,
                3,
                Seq::empty(),
                Seq::empty(),
                false,
                w.recs,
                empty_dirs,
                early,
                false,
            );
            let co = check_spec(
                lv,
                fed.pos,
                fed.backlog,
                fed.finds,
                fed.audit_err,
                empty_dirs,
                early,
                fed.canceled,
            );
            match r {
                Ok((finds, audit_err, vm)) => {
                    &&& header_ok(lv)
                    &&& vm == (version_of(lv[0]) == version@)
                    &&& first_bad_seed(input@, recursive) == -1
                    &&& w.err is None
                    &&& fed.err is None
                    &&& co.err is None
                    &&& finds@.map(|i: int, e: AuditError| crate::checker::find_view(e))
                        == co.finds
                    &&& audit_err == co.result
                },
                Err(e) => {
                    ||| !header_ok(lv)
                    ||| (header_ok(lv) && first_bad_seed(input@, recursive) >= 0)
                    ||| (header_ok(lv) && first_bad_seed(input@, recursive) == -1 && w.err is Some)
                    ||| (header_ok(lv) && first_bad_seed(input@, recursive) == -1 && w.err is None
                        && (fed.err is Some || co.err is Some))
                },
            }
        }),
{
    let (hashes, version_matches) = match checker::load_check_file(&lines, version) {
        Ok(x) => x,
        Err(e) => {
            return Err(e);
        },
    };
    if hashes.len() == 0 {
        // A well-formed header always names at least one algorithm.
        proof {
            crate::checker::lemma_parse_pieces_bad(
                crate::checker::split_commas(
                    crate::checker::algo_part(lines_view(lines@)[1]),
                ),
            );
            assert(false);
        }
        return Err(Error::FileFormat);
    }
    let mut queue = match Queue::new(input, recursive) {
        Ok(q) => q,
        Err(e) => {
            return Err(e);
        },
    };
    let mut flag = CancelFlag::new();
    let mut coll = Collector::new();
    let ghost w = walk(queue.view(), hashes@, empty_dirs);
    match run(&hashes, &mut queue, empty_dirs, &mut coll, &mut flag) {
        Err(e) => {
            return Err(e);
        },
        Ok(()) => {},
    }
    let mut checker_st = Checker::new(lines, 3, early, empty_dirs);
    let mut recs = coll.records;
    proof {
        assert(recs@.map(|i: int, h: HashData| rec_view(h)) =~= w.recs);
    }
    let ghost lv = checker_st.lview();
    let ghost fed_target = feed_spec(
        lv,
        3,
        Seq::empty(),
        Seq::empty(),
        false,
        w.recs,
        empty_dirs,
        early,
        false,
    );
    while recs.len() > 0
        invariant
            checker_st.inv(),
            checker_st.lview() == lv,
            checker_st.early == early,
            checker_st.empty_dirs == empty_dirs,
            fed_target == feed_spec(
                lv,
                checker_st.pos_spec(),
                checker_st.bview(),
                checker_st.fview(),
                checker_st.audit_err,
                recs@.map(|i: int, h: HashData| rec_view(h)),
                empty_dirs,
                early,
                flag.set(),
            ),
        decreases recs@.len(),
    {
        let ghost rv0 = recs@.map(|i: int, h: HashData| rec_view(h));
        let ghost st_pos = checker_st.pos_spec();
        let ghost st_bl = checker_st.bview();
        let ghost st_f = checker_st.fview();
        let ghost st_ae = checker_st.audit_err;
        let ghost c0 = flag.set();
        let hd = recs.remove(0);
        proof {
            assert(rec_view(hd) == rv0[0]);
            assert(recs@.map(|i: int, h: HashData| rec_view(h)) =~= rv0.drop_first());
        }
        let ghost so = crate::checker::handle_spec(
            lv,
            st_pos,
            st_bl,
            st_f,
            st_ae,
            rv0[0],
            empty_dirs,
            early,
            c0,
        );
        proof {
            if so.err is Some {
                assert(fed_target == so);
            } else {
                assert(fed_target == feed_spec(
                    lv,
                    so.pos,
                    so.backlog,
                    so.finds,
                    so.audit_err,
                    rv0.drop_first(),
                    empty_dirs,
                    early,
                    so.canceled,
                ));
            }
        }
        match checker_st.handle_record(hd, &mut flag) {
            Ok(()) => {},
            Err(e) => {
                proof {
                    assert(fed_target.err is Some);
                }
                return Err(e);
            },
        }
    }
    proof {
        assert(recs@.map(|i: int, h: HashData| rec_view(h)) =~= Seq::<
            crate::records::RecView,
        >::empty());
    }
    let audit_err = match checker_st.check(&mut flag) {
        Ok(b) => b,
        Err(e) => {
            return Err(e);
        },
    };
    Ok((checker_st.findings, audit_err, version_matches))
}

} // verus!
