//! The work engine: a FIFO queue of pending paths over an in-memory view
//! of the input tree, and the run loop that walks it, hashes every file
//! with the configured algorithms, and hands records to a sink.

use vstd::prelude::*;
use vstd::string::*;

use crate::cancel::{is_canceled, CancelFlag};
use crate::errors::Error;
use crate::hashing::{hash_file, hex_digest_of, new_hasher, HashType, Hashed};
use crate::records::{rec_view, HashData, RecView};
use crate::strutil::push_char;

verus! {

/// What the walker finds at a path: a regular file with its contents, a
/// directory with its named children, or something that cannot be read
/// (carrying the failure's message).
pub enum FsTree {
    File(Vec<u8>),
    Dir(Vec<(String, FsTree)>),
    Unreadable(String),
}

/// Nodes in a tree (files, directories and unreadable entries alike).
pub open spec fn tree_size(t: FsTree) -> nat
    decreases t,
{
    match t {
        FsTree::File(_) => 1,
        FsTree::Unreadable(_) => 1,
        FsTree::Dir(cs) => 1 + children_size(cs@),
    }
}

/// Total node count of a directory's children.
pub open spec fn children_size(cs: Seq<(String, FsTree)>) -> nat
    decreases cs,
{
    if cs.len() == 0 {
        0
    } else {
        tree_size(cs[0].1) + children_size(cs.drop_first())
    }
}

/// Total node count of the trees still queued.
pub open spec fn qsize(q: Seq<(Seq<char>, FsTree)>) -> nat
    decreases q.len(),
{
    if q.len() == 0 {
        0
    } else {
        tree_size(q[0].1) + qsize(q.drop_first())
    }
}

/// The work items a directory contributes: each child under its full path.
pub open spec fn child_items(base: Seq<char>, cs: Seq<(String, FsTree)>) -> Seq<
    (Seq<char>, FsTree),
> {
    Seq::new(cs.len(), |i: int| (base + seq!['/'] + cs[i].0@, cs[i].1))
}

pub proof fn lemma_qsize_concat(a: Seq<(Seq<char>, FsTree)>, b: Seq<(Seq<char>, FsTree)>)
    ensures
        qsize(a + b) == qsize(a) + qsize(b),
    decreases a.len(),
{
    if a.len() == 0 {
        assert(a + b =~= b);
    } else {
        assert((a + b).drop_first() =~= a.drop_first() + b);
        lemma_qsize_concat(a.drop_first(), b);
    }
}

pub proof fn lemma_qsize_child_items(base: Seq<char>, cs: Seq<(String, FsTree)>)
    ensures
        qsize(child_items(base, cs)) == children_size(cs),
    decreases cs.len(),
{
    if cs.len() > 0 {
        assert(child_items(base, cs).drop_first() =~= child_items(base, cs.drop_first()));
        lemma_qsize_child_items(base, cs.drop_first());
    }
}

/// The comma-joined hex digests of `data` under each algorithm in order.
pub open spec fn joined_digests(algs: Seq<HashType>, data: Seq<u8>) -> Seq<char>
    decreases algs.len(),
{
    if algs.len() == 0 {
        Seq::<char>::empty()
    } else if algs.len() == 1 {
        hex_digest_of(algs[0], data)
    } else {
        hex_digest_of(algs[0], data) + seq![','] + joined_digests(algs.drop_first(), data)
    }
}

pub proof fn lemma_joined_digests_push(algs: Seq<HashType>, a: HashType, data: Seq<u8>)
    requires
        algs.len() > 0,
    ensures
        joined_digests(algs.push(a), data) == joined_digests(algs, data) + seq![',']
            + hex_digest_of(a, data),
    decreases algs.len(),
{
    if algs.len() == 1 {
        assert(algs.push(a).drop_first() =~= seq![a]);
        assert(seq![a][0] == a);
        assert(joined_digests(seq![a], data) == hex_digest_of(a, data));
        assert(algs.push(a)[0] == algs[0]);
        assert(joined_digests(algs.push(a), data) =~= joined_digests(algs, data) + seq![',']
            + hex_digest_of(a, data));
    } else {
        assert(algs.push(a).drop_first() =~= algs.drop_first().push(a));
        lemma_joined_digests_push(algs.drop_first(), a, data);
        assert(joined_digests(algs.push(a), data) =~= joined_digests(algs, data) + seq![',']
            + hex_digest_of(a, data));
    }
}

/// The record the engine emits for one regular file.
pub open spec fn file_rec(path: Seq<char>, algs: Seq<HashType>, data: Seq<u8>) -> RecView {
    RecView { path: path, digests: Some(joined_digests(algs, data)) }
}

/// The record the engine emits for one empty directory.
pub open spec fn dir_rec(path: Seq<char>) -> RecView {
    RecView { path: path, digests: None }
}

/// What a full, uncanceled run over a queue produces: the records emitted
/// in order, and the first unreadable entry (message and path) if the walk
/// stops early.
pub ghost struct WalkOut {
    pub recs: Seq<RecView>,
    pub err: Option<(Seq<char>, Seq<char>)>,
}

pub open spec fn walk(q: Seq<(Seq<char>, FsTree)>, algs: Seq<HashType>, empty_dirs: bool) -> WalkOut
    decreases qsize(q), q.len(),
    via walk_dec
{
    if q.len() == 0 {
        WalkOut { recs: Seq::<RecView>::empty(), err: None }
    } else {
        let (p, t) = q[0];
        match t {
            FsTree::File(data) => {
                let rest = walk(q.drop_first(), algs, empty_dirs);
                WalkOut { recs: seq![file_rec(p, algs, data@)] + rest.recs, err: rest.err }
            },
            FsTree::Unreadable(m) => WalkOut {
                recs: Seq::<RecView>::empty(),
                err: Some((m@, p)),
            },
            FsTree::Dir(cs) => {
                let rest = walk(q.drop_first() + child_items(p, cs@), algs, empty_dirs);
                if cs@.len() == 0 && empty_dirs {
                    WalkOut { recs: seq![dir_rec(p)] + rest.recs, err: rest.err }
                } else {
                    rest
                }
            },
        }
    }
}

#[via_fn]
proof fn walk_dec(q: Seq<(Seq<char>, FsTree)>, algs: Seq<HashType>, empty_dirs: bool) {
    if q.len() > 0 {
        match q[0].1 {
            FsTree::Dir(cs) => {
                lemma_qsize_concat(q.drop_first(), child_items(q[0].0, cs@));
                lemma_qsize_child_items(q[0].0, cs@);
            },
            _ => {},
        }
    }
}

/// The FIFO of paths (with the subtree found at each) still to be walked.
pub struct Queue {
    items: Vec<(String, FsTree)>,
}

/// Seed items with their paths as character sequences.
pub open spec fn items_view(s: Seq<(String, FsTree)>) -> Seq<(Seq<char>, FsTree)> {
    s.map(|i: int, p: (String, FsTree)| (p.0@, p.1))
}

/// Whether a seed may enter the queue: readable, and a directory only when
/// the run is recursive.
pub open spec fn seed_ok(t: FsTree, recursive: bool) -> bool {
    &&& !(t is Unreadable)
    &&& (t is Dir ==> recursive)
}

/// The index of the first seed the queue refuses, or -1 if all may enter.
pub open spec fn first_bad_seed(s: Seq<(String, FsTree)>, recursive: bool) -> int
    decreases s.len(),
{
    if s.len() == 0 {
        -1
    } else if !seed_ok(s[0].1, recursive) {
        0
    } else if first_bad_seed(s.drop_first(), recursive) < 0 {
        -1
    } else {
        1 + first_bad_seed(s.drop_first(), recursive)
    }
}

proof fn lemma_first_bad_seed_at(s: Seq<(String, FsTree)>, recursive: bool, k: int)
    requires
        0 <= k < s.len(),
        !seed_ok(s[k].1, recursive),
        forall|j: int| 0 <= j < k ==> seed_ok(#[trigger] s[j].1, recursive),
    ensures
        first_bad_seed(s, recursive) == k,
    decreases k,
{
    if k > 0 {
        assert forall|j: int| 0 <= j < k - 1 implies seed_ok(
            #[trigger] s.drop_first()[j].1,
            recursive,
        ) by {
            assert(s.drop_first()[j] == s[j + 1]);
        }
        assert(s.drop_first()[k - 1] == s[k]);
        lemma_first_bad_seed_at(s.drop_first(), recursive, k - 1);
    }
}

proof fn lemma_first_bad_seed_none(s: Seq<(String, FsTree)>, recursive: bool)
    requires
        forall|j: int| 0 <= j < s.len() ==> seed_ok(#[trigger] s[j].1, recursive),
    ensures
        first_bad_seed(s, recursive) == -1,
    decreases s.len(),
{
    if s.len() > 0 {
        assert forall|j: int| 0 <= j < s.drop_first().len() implies seed_ok(
            #[trigger] s.drop_first()[j].1,
            recursive,
        ) by {
            assert(s.drop_first()[j] == s[j + 1]);
        }
        lemma_first_bad_seed_none(s.drop_first(), recursive);
    }
}

impl Queue {
    /// The queued items, oldest first, with paths as character sequences.
    pub closed spec fn view(&self) -> Seq<(Seq<char>, FsTree)> {
        self.items@.map(|i: int, p: (String, FsTree)| (p.0@, p.1))
    }

    /// Queue every seed, refusing unreadable seeds and, without the
    /// recursive option, directory seeds.
    #[verifier::loop_isolation(false)]
    pub fn new(input: Vec<(String, FsTree)>, recursive: bool) -> (r: Result<Queue, Error>)
        ensures
            match r {
                Ok(q) => {
                    &&& first_bad_seed(input@, recursive) == -1
                    &&& q.view() == items_view(input@)
                    &&& q.view().len() == input@.len()
                    &&& forall|i: int|
                        0 <= i < input@.len() ==> #[trigger] q.view()[i] == (input@[i].0@, input@[i].1)
                    &&& forall|i: int|
                        0 <= i < input@.len() ==> seed_ok(#[trigger] input@[i].1, recursive)
                },
                Err(e) => {
                    let k = first_bad_seed(input@, recursive);
                    &&& 0 <= k < input@.len()
                    &&& !seed_ok(input@[k].1, recursive)
                    &&& match e {
                        Error::IsDir(p) => input@[k].1 is Dir && !recursive && p@ == input@[k].0@,
                        Error::Io(m, p) => input@[k].1 matches FsTree::Unreadable(msg) && m@
                            == msg@ && p@ == input@[k].0@,
                        _ => false,
                    }
                },
            },
    {
        let mut items: Vec<(String, FsTree)> = Vec::new();
        let ghost input0 = input@;
        let mut input = input;
        let ghost mut i: int = 0;
        while input.len() > 0
            invariant
                0 <= i <= input0.len(),
                input@ =~= input0.subrange(i, input0.len() as int),
                items@.len() == i,
                forall|j: int| 0 <= j < i ==> #[trigger] items@[j] == input0[j],
                forall|j: int| 0 <= j < i ==> seed_ok(#[trigger] input0[j].1, recursive),
            decreases input@.len(),
        {
            let (path, tree) = input.remove(0);
            proof {
                assert(input0[i] == (path, tree));
            }
            match &tree {
                FsTree::Unreadable(m) => {
                    proof {
                        assert(!seed_ok(input0[i].1, recursive));
                        lemma_first_bad_seed_at(input0, recursive, i);
                        assert(first_bad_seed(input0, recursive) == i);
                        assert(0 <= i < input0.len());
                        assert(input0[i].1 is Unreadable);
                        assert(input0[i].0 == path);
                    }
                    return Err(Error::Io(m.clone(), path));
                },
                FsTree::Dir(_) => {
                    if !recursive {
                        proof {
                            assert(!seed_ok(input0[i].1, recursive));
                            lemma_first_bad_seed_at(input0, recursive, i);
                        }
                        return Err(Error::IsDir(path));
                    }
                },
                FsTree::File(_) => {},
            }
            items.push((path, tree));
            proof {
                i = i + 1;
                assert(input@ =~= input0.subrange(i, input0.len() as int));
            }
        }
        let q = Queue { items };
        proof {
            lemma_first_bad_seed_none(input0, recursive);
            assert(q.view() =~= items_view(input0));
        }
        Ok(q)
    }

    /// Take the oldest item, if any.
    pub fn pop_front(&mut self) -> (r: Option<(String, FsTree)>)
        ensures
            match r {
                None => old(self).view().len() == 0 && final (self).view() == old(self).view(),
                Some(it) => {
                    &&& old(self).view().len() > 0
                    &&& (it.0@, it.1) == old(self).view()[0]
                    &&& final (self).view() == old(self).view().drop_first()
                },
            },
    {
        if self.items.len() == 0 {
            proof {
                assert(self.view() =~= old(self).view());
            }
            return None;
        }
        let it = self.items.remove(0);
        proof {
            assert(self.view() =~= old(self).view().drop_first());
        }
        Some(it)
    }

    /// Queue every child of a directory under its full path, in listing
    /// order.  Returns whether the directory was empty.
    pub fn push_dir(&mut self, path: &str, children: Vec<(String, FsTree)>) -> (r: bool)
        ensures
            r == (children@.len() == 0),
            final (self).view() == old(self).view() + child_items(path@, children@),
    {
        let is_empty = children.len() == 0;
        let ghost cs0 = children@;
        let mut children = children;
        let ghost base = self.view();
        let ghost mut k: int = 0;
        while children.len() > 0
            invariant
                0 <= k <= cs0.len(),
                children@ =~= cs0.subrange(k, cs0.len() as int),
                self.view() =~= base + child_items(path@, cs0.subrange(0, k)),
            decreases children@.len(),
        {
            let (name, tree) = children.remove(0);
            proof {
                assert(cs0[k] == (name, tree));
            }
            let mut full = String::from_str(path);
            push_char(&mut full, '/');
            full.append(name.as_str());
            proof {
                assert(full@ =~= path@ + seq!['/'] + name@);
            }
            let ghost fullv = full@;
            let ghost treev = tree;
            let ghost vpre = self.view();
            self.items.push((full, tree));
            proof {
                k = k + 1;
                assert(children@ =~= cs0.subrange(k, cs0.len() as int));
                let target = base + child_items(path@, cs0.subrange(0, k));
                assert(self.view().len() == vpre.len() + 1);
                assert(target.len() == self.view().len());
                assert forall|j: int| 0 <= j < self.view().len() implies self.view()[j]
                    == target[j] by {
                    if j < vpre.len() {
                        assert(self.view()[j] == vpre[j]);
                        assert(vpre[j] == (base + child_items(path@, cs0.subrange(0, k - 1)))[j]);
                        if j >= base.len() {
                            assert(child_items(path@, cs0.subrange(0, k - 1))[j - base.len()] == (
                            path@ + seq!['/'] + cs0[j - base.len()].0@,
                            cs0[j - base.len()].1,
                            ));
                            assert(child_items(path@, cs0.subrange(0, k))[j - base.len()] == (path@
                                + seq!['/'] + cs0[j - base.len()].0@, cs0[j - base.len()].1));
                        }
                    } else {
                        assert(self.view()[j] == (fullv, treev));
                        assert(child_items(path@, cs0.subrange(0, k))[k - 1] == (path@ + seq!['/']
                            + cs0[k - 1].0@, cs0[k - 1].1));
                    }
                }
                assert(self.view() =~= target);
            }
        }
        proof {
            assert(cs0.subrange(0, cs0.len() as int) =~= cs0);
        }
        is_empty
    }
}

/// A sink for the records the engine emits.
pub trait HashHandler: Sized {
    /// The sink's well-formedness, preserved by every `handle` call.
    spec fn inv(&self) -> bool;

    /// The records accepted so far, in order.
    spec fn taken(&self) -> Seq<RecView>;

    /// Whether this sink promises never to refuse a record.
    spec fn infallible(&self) -> bool;

    /// Accept one record.
    fn handle(&mut self, hash_data: HashData) -> (r: Result<(), Error>)
        requires
            old(self).inv(),
        ensures
            final (self).inv(),
            final (self).infallible() == old(self).infallible(),
            match r {
                Ok(()) => final (self).taken() == old(self).taken().push(rec_view(hash_data)),
                Err(_) => final (self).taken() == old(self).taken() && !old(self).infallible(),
            },
    ;
}

/// A sink that simply keeps every record.
pub struct Collector {
    pub records: Vec<HashData>,
}

impl Collector {
    pub fn new() -> (r: Collector)
        ensures
            r.records@.len() == 0,
            r.taken() == Seq::<RecView>::empty(),
    {
        let r = Collector { records: Vec::new() };
        proof {
            assert(r.taken() =~= Seq::<RecView>::empty());
        }
        r
    }
}

impl HashHandler for Collector {
    open spec fn inv(&self) -> bool {
        true
    }

    open spec fn taken(&self) -> Seq<RecView> {
        self.records@.map(|i: int, h: HashData| rec_view(h))
    }

    open spec fn infallible(&self) -> bool {
        true
    }

    fn handle(&mut self, hash_data: HashData) -> (r: Result<(), Error>) {
        self.records.push(hash_data);
        proof {
            assert(self.taken() =~= old(self).taken().push(rec_view(hash_data)));
        }
        Ok(())
    }
}

/// Walk the queue to exhaustion: expand directories, hash every file with
/// every configured algorithm, and hand each record to the sink.  The
/// records handed over are exactly those of `walk` over the queue's
/// starting state; an unreadable entry latches the cancel flag and stops
/// the run with its `Io` error.
pub fn run<T: HashHandler>(
    hashes: &Vec<HashType>,
    queue: &mut Queue,
    empty_dirs: bool,
    handler: &mut T,
    flag: &mut CancelFlag,
) -> (r: Result<(), Error>)
    requires
        hashes@.len() >= 1,
        old(handler).inv(),
    ensures
        final (handler).inv(),
        final (handler).infallible() == old(handler).infallible(),
        old(flag).set() ==> r is Ok && final (handler).taken() == old(handler).taken()
            && final (flag).set(),
        !old(flag).set() ==> {
            let w = walk(old(queue).view(), hashes@, empty_dirs);
            match r {
                Ok(()) => {
                    &&& w.err is None
                    &&& final (handler).taken() == old(handler).taken() + w.recs
                    &&& !final (flag).set()
                    &&& final (queue).view().len() == 0
                    &&& forall|i: int|
                        0 <= i < w.recs.len() ==> ((#[trigger] w.recs[i]).digests matches Some(d)
                            ==> d.len() > 0)
                },
                Err(e) => {
                    &&& final (flag).set()
                    &&& ((w.err matches Some((m, p)) && e matches Error::Io(em, ep) && em@ == m
                        && ep@ == p && final (handler).taken() == old(handler).taken() + w.recs) || (
                    !old(handler).infallible() && exists|k: int|
                        0 <= k <= w.recs.len() && final (handler).taken() == old(handler).taken()
                            + w.recs.subrange(0, k)))
                },
            }
        },
{
    if is_canceled(flag) {
        return Ok(());
    }
    let ghost q0 = queue.view();
    let ghost t0 = handler.taken();
    let ghost w0 = walk(q0, hashes@, empty_dirs);
    loop
        invariant
            hashes@.len() >= 1,
            !old(flag).set(),
            !flag.set(),
            q0 == old(queue).view(),
            t0 == old(handler).taken(),
            handler.inv(),
            handler.infallible() == old(handler).infallible(),
            w0 == walk(q0, hashes@, empty_dirs),
            t0.len() <= handler.taken().len(),
            t0 == handler.taken().subrange(0, t0.len() as int),
            w0.recs == handler.taken().skip(t0.len() as int) + walk(
                queue.view(),
                hashes@,
                empty_dirs,
            ).recs,
            w0.err == walk(queue.view(), hashes@, empty_dirs).err,
            forall|i: int|
                t0.len() <= i < handler.taken().len() ==> ((#[trigger] handler.taken()[i]).digests
                    matches Some(d) ==> d.len() > 0),
        decreases qsize(queue.view()),
    {
        let ghost qpre = queue.view();
        let ghost wpre = walk(qpre, hashes@, empty_dirs);
        let ghost seen_pre = handler.taken().skip(t0.len() as int);
        match queue.pop_front() {
            None => {
                proof {
                    assert(handler.taken() =~= t0 + seen_pre);
                    assert(w0.recs =~= seen_pre);
                    assert forall|i: int| 0 <= i < w0.recs.len() implies ((
                    #[trigger] w0.recs[i]).digests matches Some(d) ==> d.len() > 0) by {
                        assert(w0.recs[i] == handler.taken()[t0.len() + i]);
                    }
                }
                return Ok(());
            },
            Some((path, tree)) => {
                match tree {
                    FsTree::Unreadable(m) => {
                        crate::cancel::cancel(flag);
                        proof {
                            assert(handler.taken() =~= t0 + seen_pre);
                            assert(w0.recs =~= seen_pre);
                        }
                        return Err(Error::Io(m, path));
                    },
                    FsTree::Dir(children) => {
                        let ghost cs0 = children@;
                        proof {
                            lemma_qsize_concat(qpre.drop_first(), child_items(path@, cs0));
                            lemma_qsize_child_items(path@, cs0);
                        }
                        let is_empty = queue.push_dir(path.as_str(), children);
                        if is_empty && empty_dirs {
                            let hd = HashData(path, None);
                            let ghost tpre = handler.taken();
                            let ghost hdv = rec_view(hd);
                            proof {
                                assert(hdv == dir_rec(qpre[0].0));
                            }
                            match handler.handle(hd) {
                                Ok(()) => {
                                    proof {
                                        assert(handler.taken().subrange(0, t0.len() as int) =~= t0);
                                        assert(handler.taken().skip(t0.len() as int) =~=
                                            seen_pre.push(hdv));
                                        assert(w0.recs =~= handler.taken().skip(t0.len() as int)
                                            + walk(queue.view(), hashes@, empty_dirs).recs);
                                    }
                                },
                                Err(e) => {
                                    crate::cancel::cancel(flag);
                                    proof {
                                        assert(handler.taken() =~= t0 + seen_pre);
                                        assert(seen_pre =~= w0.recs.subrange(
                                            0,
                                            seen_pre.len() as int,
                                        ));
                                    }
                                    return Err(e);
                                },
                            }
                        }
                    },
                    FsTree::File(data) => {
                        let mut hd = HashData::new(path);
                        let mut i: usize = 0;
                        while i < hashes.len()
                            invariant
                                hashes@.len() >= 1,
                                i <= hashes@.len(),
                                !flag.set(),
                                qpre.len() > 0,
                                hd.0@ == qpre[0].0,
                                i == 0 ==> hd.1 is None,
                                i > 0 ==> (hd.1 matches Some(s) && s@.len() > 0 && s@
                                    == joined_digests(hashes@.subrange(0, i as int), data@)),
                            decreases hashes@.len() - i,
                        {
                            let mut hasher = new_hasher(&hashes[i]);
                            match hash_file(&data, &mut hasher, flag) {
                                Hashed::Value(v) => {
                                    proof {
                                        let pre = hashes@.subrange(0, i as int);
                                        let post = hashes@.subrange(0, i + 1 as int);
                                        assert(post =~= pre.push(hashes@[i as int]));
                                        if i > 0 {
                                            lemma_joined_digests_push(
                                                pre,
                                                hashes@[i as int],
                                                data@,
                                            );
                                        } else {
                                            assert(post =~= seq![hashes@[0]]);
                                            assert(joined_digests(post, data@) == hex_digest_of(
                                                hashes@[0],
                                                data@,
                                            ));
                                        }
                                    }
                                    hd.push_hash(v);
                                },
                                Hashed::Canceled => {
                                    return Ok(());
                                },
                            }
                            i += 1;
                        }
                        proof {
                            assert(hashes@.subrange(0, hashes@.len() as int) =~= hashes@);
                            assert(rec_view(hd) == file_rec(qpre[0].0, hashes@, data@));
                        }
                        let ghost tpre = handler.taken();
                        let ghost hdv = rec_view(hd);
                        match handler.handle(hd) {
                            Ok(()) => {
                                proof {
                                    assert(handler.taken().subrange(0, t0.len() as int) =~= t0);
                                    assert(handler.taken().skip(t0.len() as int) =~= seen_pre.push(
                                        hdv,
                                    ));
                                    assert(w0.recs =~= handler.taken().skip(t0.len() as int) + walk(
                                        queue.view(),
                                        hashes@,
                                        empty_dirs,
                                    ).recs);
                                }
                            },
                            Err(e) => {
                                crate::cancel::cancel(flag);
                                proof {
                                    assert(handler.taken() =~= t0 + seen_pre);
                                    assert(seen_pre =~= w0.recs.subrange(0, seen_pre.len() as int));
                                }
                                return Err(e);
                            },
                        }
                    },
                }
            },
        }
        proof {
            assert(t0 =~= handler.taken().subrange(0, t0.len() as int));
            assert(w0.recs =~= handler.taken().skip(t0.len() as int) + walk(
                queue.view(),
                hashes@,
                empty_dirs,
            ).recs);
        }
    }
}

} // verus!
