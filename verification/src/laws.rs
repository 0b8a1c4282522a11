//! The library's laws: what holds of a manifest the writer produces, and
//! of an audit run over it.
//!
//! The central results: a produced manifest parses back to exactly what it
//! was rendered from (and re-rendering is byte-identical); auditing a tree
//! against the manifest its own records produced reports nothing; and a
//! single changed, missing or added record is reported exactly once.

use vstd::prelude::*;

use crate::checker::{
    algo_line_ok, algo_part, check_spec, cmp_spec, feed_spec, first_sep, handle_spec, header_algs,
    header_ok,
    line_bad, line_is_empty_dir, line_rec, parse_pieces, sb_step, sep_at, split_commas,
    split_lines, sr_step, time_finish_of, time_line_ok, time_part_ok, time_start_of,
    version_line_ok, version_of, CmpRes, FindKind, FindV, StepOut,
};
use crate::engine::{joined_digests, walk};
use crate::hashing::{hex_digest_of, lemma_hex_seq_chars, spec_parse_token, token_of, HashType};
use crate::manifest::{algo_tokens, manifest_render, ts_wf, HdrView};
use crate::records::{
    lemma_rlines_first, lemma_split_line_parts, rec_digests, rline, rlines, RecView,
};
use crate::strutil::{
    first_index_of, lemma_first_index_of, lemma_first_index_unique, lemma_last_index_unique,
};

verus! {

broadcast use vstd::string::group_string_axioms;
// ---------------------------------------------------------------------------
// Well-formedness of what the writer renders
// ---------------------------------------------------------------------------
/// A header the writer can have produced: a version token without spaces
/// or newlines, at least one algorithm, and well-formed timestamps.
pub open spec fn hdr_wf(h: HdrView) -> bool {
    &&& forall|i: int|
        0 <= i < h.version.len() ==> #[trigger] h.version[i] != ' ' && h.version[i] != '\n'
    &&& h.algs.len() >= 1
    &&& ts_wf(h.start)
    &&& ts_wf(h.fin)
}

/// A record the engine can have emitted, as far as the text format sees
/// it: a newline-free path, and digests that are nonempty and free of the
/// line's separators; a record without digests needs the empty-directory
/// option on both sides.
pub open spec fn rec_wf(r: RecView, ed: bool) -> bool {
    &&& forall|i: int| 0 <= i < r.path.len() ==> #[trigger] r.path[i] != '\n'
    &&& match r.digests {
        Some(d) => d.len() > 0 && forall|i: int|
            0 <= i < d.len() ==> #[trigger] d[i] != '\n' && d[i] != '|',
        None => ed,
    }
}

pub open spec fn recs_wf(rs: Seq<RecView>, ed: bool) -> bool {
    forall|k: int| 0 <= k < rs.len() ==> rec_wf(#[trigger] rs[k], ed)
}

/// The header's three lines, without their newlines.
pub open spec fn vline(h: HdrView) -> Seq<char> {
    "version "@ + h.version
}

pub open spec fn aline(h: HdrView) -> Seq<char> {
    "algo "@ + algo_tokens(h.algs)
}

pub open spec fn tline(h: HdrView) -> Seq<char> {
    "time_start "@ + h.start + " - time_finish "@ + h.fin
}

/// A record's data line, without its newline.
pub open spec fn rec_line(r: RecView) -> Seq<char> {
    r.path + seq!['|'] + rec_digests(r)
}

// ---------------------------------------------------------------------------
// Token facts
// ---------------------------------------------------------------------------
/// Each algorithm token parses back to its algorithm and holds only
/// harmless characters.
pub proof fn lemma_token_facts(a: HashType)
    ensures
        spec_parse_token(token_of(a)) == Some(a),
        forall|i: int|
            0 <= i < token_of(a).len() ==> #[trigger] token_of(a)[i] != ' ' && token_of(a)[i]
                != ',' && token_of(a)[i] != '\n',
        token_of(a).len() >= 1,
{
    reveal_strlit("md5");
    reveal_strlit("sha1");
    reveal_strlit("sha256");
    reveal_strlit("tiger");
    reveal_strlit("whirlpool");
    assert("md5"@.len() == 3);
    assert("sha1"@.len() == 4);
    assert("sha256"@.len() == 6);
    assert("tiger"@.len() == 5);
    assert("whirlpool"@.len() == 9);
}

/// The joined token list splits back into the tokens, parses back to the
/// algorithms, and holds no space or newline.
pub proof fn lemma_algo_tokens_parse(algs: Seq<HashType>)
    requires
        algs.len() >= 1,
    ensures
        parse_pieces(split_commas(algo_tokens(algs))) == Some(algs),
        forall|i: int|
            0 <= i < algo_tokens(algs).len() ==> #[trigger] algo_tokens(algs)[i] != ' '
                && algo_tokens(algs)[i] != '\n',
    decreases algs.len(),
{
    lemma_token_facts(algs[0]);
    let s = algo_tokens(algs);
    if algs.len() == 1 {
        assert(s == token_of(algs[0]));
        lemma_first_index_of(s, ',');
        if first_index_of(s, ',') >= 0 {
            assert(s[first_index_of(s, ',')] == ',');
        }
        assert(split_commas(s) == seq![s]);
        assert(parse_pieces(seq![s]) == Some(seq![algs[0]])) by {
            assert(seq![s][0] == s);
            assert(spec_parse_token(s) == Some(algs[0]));
            assert(seq![s].drop_first() =~= Seq::<Seq<char>>::empty());
            assert(parse_pieces(Seq::<Seq<char>>::empty()) == Some(Seq::<HashType>::empty()));
            assert(seq![algs[0]] + Seq::<HashType>::empty() =~= seq![algs[0]]);
        }
        assert(seq![algs[0]] =~= algs);
    } else {
        let t0 = token_of(algs[0]);
        let rest = algo_tokens(algs.drop_first());
        assert(s == t0 + seq![','] + rest);
        lemma_algo_tokens_parse(algs.drop_first());
        assert(s[t0.len() as int] == ',');
        assert forall|j: int| 0 <= j < t0.len() implies s[j] != ',' by {
            assert(s[j] == t0[j]);
        }
        lemma_first_index_unique(s, ',', t0.len() as int);
        assert(s.subrange(0, t0.len() as int) =~= t0);
        assert(s.subrange(t0.len() as int + 1, s.len() as int) =~= rest);
        assert(split_commas(s) == seq![t0] + split_commas(rest));
        let ps = split_commas(s);
        assert(ps[0] == t0);
        assert(ps.drop_first() =~= split_commas(rest));
        assert(parse_pieces(ps.drop_first()) == Some(algs.drop_first()));
        assert(parse_pieces(ps) == Some(seq![algs[0]] + algs.drop_first()));
        assert(seq![algs[0]] + algs.drop_first() =~= algs);
    }
}

/// A file record's digest list splits into exactly one hex digest per
/// configured algorithm, in configuration order.
pub proof fn lemma_joined_digests_split(algs: Seq<HashType>, data: Seq<u8>)
    requires
        algs.len() >= 1,
    ensures
        split_commas(joined_digests(algs, data)).len() == algs.len(),
        forall|i: int|
            0 <= i < algs.len() ==> #[trigger] split_commas(joined_digests(algs, data))[i]
                == hex_digest_of(algs[i], data),
    decreases algs.len(),
{
    let s = joined_digests(algs, data);
    let h0 = hex_digest_of(algs[0], data);
    lemma_hex_seq_chars(crate::hashing::digest_of(algs[0], data));
    if algs.len() == 1 {
        assert(s == h0);
        lemma_first_index_of(s, ',');
        if first_index_of(s, ',') >= 0 {
            assert(s[first_index_of(s, ',')] == ',');
        }
        assert(split_commas(s) == seq![s]);
    } else {
        let rest = joined_digests(algs.drop_first(), data);
        assert(s == h0 + seq![','] + rest);
        lemma_joined_digests_split(algs.drop_first(), data);
        assert(s[h0.len() as int] == ',');
        assert forall|j: int| 0 <= j < h0.len() implies s[j] != ',' by {
            assert(s[j] == h0[j]);
        }
        lemma_first_index_unique(s, ',', h0.len() as int);
        assert(s.subrange(0, h0.len() as int) =~= h0);
        assert(s.subrange(h0.len() as int + 1, s.len() as int) =~= rest);
        assert(split_commas(s) == seq![h0] + split_commas(rest));
        assert forall|i: int| 0 <= i < algs.len() implies #[trigger] split_commas(s)[i]
            == hex_digest_of(algs[i], data) by {
            if i > 0 {
                assert(split_commas(s)[i] == split_commas(rest)[i - 1]);
                assert(algs.drop_first()[i - 1] == algs[i]);
            }
        }
    }
}

// ---------------------------------------------------------------------------
// Where records come from
// ---------------------------------------------------------------------------
/// Whether walking the node at `base` can emit the record `rec`.
pub open spec fn rec_in_item(
    base: Seq<char>,
    t: crate::engine::FsTree,
    rec: RecView,
    algs: Seq<HashType>,
    ed: bool,
) -> bool
    decreases t,
{
    match t {
        crate::engine::FsTree::File(d) => rec == crate::engine::file_rec(base, algs, d@),
        crate::engine::FsTree::Unreadable(_) => false,
        crate::engine::FsTree::Dir(cs) => (cs@.len() == 0 && ed && rec == crate::engine::dir_rec(
            base,
        )) || rec_in_children(base, cs@, rec, algs, ed),
    }
}

/// Whether some child of a directory at `base` can emit `rec`.
pub open spec fn rec_in_children(
    base: Seq<char>,
    cs: Seq<(String, crate::engine::FsTree)>,
    rec: RecView,
    algs: Seq<HashType>,
    ed: bool,
) -> bool
    decreases cs,
{
    cs.len() > 0 && (rec_in_item(base + seq!['/'] + cs[0].0@, cs[0].1, rec, algs, ed)
        || rec_in_children(base, cs.drop_first(), rec, algs, ed))
}

/// A record emitted under some child index is emitted under the children.
proof fn lemma_children_member(
    base: Seq<char>,
    cs: Seq<(String, crate::engine::FsTree)>,
    i: int,
    rec: RecView,
    algs: Seq<HashType>,
    ed: bool,
)
    requires
        0 <= i < cs.len(),
        rec_in_item(base + seq!['/'] + cs[i].0@, cs[i].1, rec, algs, ed),
    ensures
        rec_in_children(base, cs, rec, algs, ed),
    decreases i,
{
    if i > 0 {
        assert(cs.drop_first()[i - 1] == cs[i]);
        lemma_children_member(base, cs.drop_first(), i - 1, rec, algs, ed);
    }
}

/// Every record a walk emits comes from some node of some queued tree:
/// a regular file's record, or (with the option on) an empty directory's.
pub proof fn lemma_walk_provenance(
    q: Seq<(Seq<char>, crate::engine::FsTree)>,
    algs: Seq<HashType>,
    ed: bool,
    r: RecView,
)
    requires
        walk(q, algs, ed).recs.contains(r),
    ensures
        exists|k: int| 0 <= k < q.len() && rec_in_item(q[k].0, #[trigger] q[k].1, r, algs, ed),
    decreases crate::engine::qsize(q), q.len(),
{
    let w = walk(q, algs, ed);
    let (p, t) = q[0];
    match t {
        crate::engine::FsTree::File(d) => {
            let rest = walk(q.drop_first(), algs, ed);
            if r == crate::engine::file_rec(p, algs, d@) {
                assert(rec_in_item(q[0].0, q[0].1, r, algs, ed));
            } else {
                assert(rest.recs.contains(r)) by {
                    let j = choose|j: int| 0 <= j < w.recs.len() && w.recs[j] == r;
                    assert(w.recs[j] == rest.recs[j - 1]);
                }
                lemma_walk_provenance(q.drop_first(), algs, ed, r);
                let k2 = choose|k2: int|
                    0 <= k2 < q.drop_first().len() && rec_in_item(
                        q.drop_first()[k2].0,
                        #[trigger] q.drop_first()[k2].1,
                        r,
                        algs,
                        ed,
                    );
                assert(q.drop_first()[k2] == q[k2 + 1]);
                assert(rec_in_item(q[k2 + 1].0, q[k2 + 1].1, r, algs, ed));
            }
        },
        crate::engine::FsTree::Unreadable(_) => {
            assert(w.recs.len() == 0);
        },
        crate::engine::FsTree::Dir(cs) => {
            crate::engine::lemma_qsize_concat(q.drop_first(), crate::engine::child_items(p, cs@));
            crate::engine::lemma_qsize_child_items(p, cs@);
            let q2 = q.drop_first() + crate::engine::child_items(p, cs@);
            let rest = walk(q2, algs, ed);
            if cs@.len() == 0 && ed && r == crate::engine::dir_rec(p) {
                assert(rec_in_item(q[0].0, q[0].1, r, algs, ed));
            } else {
                assert(rest.recs.contains(r)) by {
                    if cs@.len() == 0 && ed {
                        let j = choose|j: int| 0 <= j < w.recs.len() && w.recs[j] == r;
                        assert(j != 0);
                        assert(w.recs[j] == rest.recs[j - 1]);
                    }
                }
                lemma_walk_provenance(q2, algs, ed, r);
                let k2 = choose|k2: int|
                    0 <= k2 < q2.len() && rec_in_item(q2[k2].0, #[trigger] q2[k2].1, r, algs, ed);
                if k2 < q.drop_first().len() {
                    assert(q2[k2] == q[k2 + 1]);
                    assert(rec_in_item(q[k2 + 1].0, q[k2 + 1].1, r, algs, ed));
                } else {
                    let i = k2 - q.drop_first().len();
                    assert(q2[k2] == crate::engine::child_items(p, cs@)[i]);
                    assert(q2[k2].0 == p + seq!['/'] + cs@[i].0@ && q2[k2].1 == cs@[i].1);
                    lemma_children_member(p, cs@, i, r, algs, ed);
                    assert(rec_in_item(q[0].0, q[0].1, r, algs, ed));
                }
            }
        },
    }
}

/// Whether the tree at `base` has an empty directory exactly at `path`.
pub open spec fn empty_dir_at(base: Seq<char>, t: crate::engine::FsTree, path: Seq<char>) -> bool
    decreases t,
{
    match t {
        crate::engine::FsTree::File(_) => false,
        crate::engine::FsTree::Unreadable(_) => false,
        crate::engine::FsTree::Dir(cs) => (cs@.len() == 0 && base == path) || empty_dir_in_children(
            base,
            cs@,
            path,
        ),
    }
}

pub open spec fn empty_dir_in_children(
    base: Seq<char>,
    cs: Seq<(String, crate::engine::FsTree)>,
    path: Seq<char>,
) -> bool
    decreases cs,
{
    cs.len() > 0 && (empty_dir_at(base + seq!['/'] + cs[0].0@, cs[0].1, path)
        || empty_dir_in_children(base, cs.drop_first(), path))
}

/// A record without digests can only come from an empty directory at its
/// path, and only when empty directories were asked for.
pub proof fn lemma_empty_rec_is_empty_dir(
    base: Seq<char>,
    t: crate::engine::FsTree,
    rec: RecView,
    algs: Seq<HashType>,
    ed: bool,
)
    requires
        algs.len() >= 1,
        rec_in_item(base, t, rec, algs, ed),
        rec.digests is None,
    ensures
        ed,
        empty_dir_at(base, t, rec.path),
    decreases t,
{
    match t {
        crate::engine::FsTree::File(d) => {
            assert(rec == crate::engine::file_rec(base, algs, d@));
        },
        crate::engine::FsTree::Unreadable(_) => {},
        crate::engine::FsTree::Dir(cs) => {
            if cs@.len() == 0 && ed && rec == crate::engine::dir_rec(base) {
            } else {
                lemma_empty_rec_children(base, cs@, rec, algs, ed);
            }
        },
    }
}

proof fn lemma_empty_rec_children(
    base: Seq<char>,
    cs: Seq<(String, crate::engine::FsTree)>,
    rec: RecView,
    algs: Seq<HashType>,
    ed: bool,
)
    requires
        algs.len() >= 1,
        rec_in_children(base, cs, rec, algs, ed),
        rec.digests is None,
    ensures
        ed,
        empty_dir_in_children(base, cs, rec.path),
    decreases cs,
{
    if rec_in_item(base + seq!['/'] + cs[0].0@, cs[0].1, rec, algs, ed) {
        lemma_empty_rec_is_empty_dir(base + seq!['/'] + cs[0].0@, cs[0].1, rec, algs, ed);
    } else {
        lemma_empty_rec_children(base, cs.drop_first(), rec, algs, ed);
    }
}

/// Every record a walk emits with empty digests marks an empty directory
/// of the walked tree at that very path (and the option was on); every
/// record with digests carries exactly one hex digest per configured
/// algorithm.
pub proof fn lemma_walk_record_shape(
    q: Seq<(Seq<char>, crate::engine::FsTree)>,
    algs: Seq<HashType>,
    ed: bool,
    r: RecView,
)
    requires
        algs.len() >= 1,
        walk(q, algs, ed).recs.contains(r),
    ensures
        r.digests is None ==> ed && exists|k: int|
            0 <= k < q.len() && empty_dir_at(q[k].0, #[trigger] q[k].1, r.path),
        r.digests matches Some(d) ==> split_commas(d).len() == algs.len(),
{
    lemma_walk_provenance(q, algs, ed, r);
    let k = choose|k: int| 0 <= k < q.len() && rec_in_item(q[k].0, #[trigger] q[k].1, r, algs, ed);
    if r.digests is None {
        lemma_empty_rec_is_empty_dir(q[k].0, q[k].1, r, algs, ed);
    } else {
        lemma_rec_digest_count(q[k].0, q[k].1, r, algs, ed);
    }
}

proof fn lemma_rec_digest_count(
    base: Seq<char>,
    t: crate::engine::FsTree,
    rec: RecView,
    algs: Seq<HashType>,
    ed: bool,
)
    requires
        algs.len() >= 1,
        rec_in_item(base, t, rec, algs, ed),
        rec.digests is Some,
    ensures
        split_commas(rec.digests.unwrap()).len() == algs.len(),
    decreases t,
{
    match t {
        crate::engine::FsTree::File(d) => {
            lemma_joined_digests_split(algs, d@);
        },
        crate::engine::FsTree::Unreadable(_) => {},
        crate::engine::FsTree::Dir(cs) => {
            if cs@.len() == 0 && ed && rec == crate::engine::dir_rec(base) {
            } else {
                lemma_rec_digest_count_children(base, cs@, rec, algs, ed);
            }
        },
    }
}

proof fn lemma_rec_digest_count_children(
    base: Seq<char>,
    cs: Seq<(String, crate::engine::FsTree)>,
    rec: RecView,
    algs: Seq<HashType>,
    ed: bool,
)
    requires
        algs.len() >= 1,
        rec_in_children(base, cs, rec, algs, ed),
        rec.digests is Some,
    ensures
        split_commas(rec.digests.unwrap()).len() == algs.len(),
    decreases cs,
{
    if rec_in_item(base + seq!['/'] + cs[0].0@, cs[0].1, rec, algs, ed) {
        lemma_rec_digest_count(base + seq!['/'] + cs[0].0@, cs[0].1, rec, algs, ed);
    } else {
        lemma_rec_digest_count_children(base, cs.drop_first(), rec, algs, ed);
    }
}

// ---------------------------------------------------------------------------
// What the engine emits fits on a data line
// ---------------------------------------------------------------------------
/// Every character of a joined digest list is a lowercase hex digit or a
/// comma.
pub proof fn lemma_joined_digests_chars(algs: Seq<HashType>, data: Seq<u8>)
    ensures
        forall|i: int|
            0 <= i < joined_digests(algs, data).len() ==> {
                let c = #[trigger] joined_digests(algs, data)[i];
                'a' <= c <= 'f' || '0' <= c <= '9' || c == ','
            },
    decreases algs.len(),
{
    if algs.len() >= 1 {
        lemma_hex_seq_chars(crate::hashing::digest_of(algs[0], data));
        if algs.len() > 1 {
            lemma_joined_digests_chars(algs.drop_first(), data);
            let h0 = hex_digest_of(algs[0], data);
            let rest = joined_digests(algs.drop_first(), data);
            assert forall|i: int| 0 <= i < joined_digests(algs, data).len() implies {
                let c = #[trigger] joined_digests(algs, data)[i];
                'a' <= c <= 'f' || '0' <= c <= '9' || c == ','
            } by {
                let s = joined_digests(algs, data);
                if i < h0.len() {
                    assert(s[i] == h0[i]);
                } else if i > h0.len() {
                    assert(s[i] == rest[i - h0.len() - 1]);
                }
            }
        }
    }
}

/// Trees whose entry names hold no newline.
pub open spec fn text_ok(t: crate::engine::FsTree) -> bool
    decreases t,
{
    match t {
        crate::engine::FsTree::File(_) => true,
        crate::engine::FsTree::Unreadable(_) => true,
        crate::engine::FsTree::Dir(cs) => {
            &&& forall|i: int, c: int|
                0 <= i < cs@.len() && 0 <= c < cs@[i].0@.len() ==> #[trigger] cs@[i].0@[c] != '\n'
            &&& children_text_ok(cs@)
        },
    }
}

pub open spec fn children_text_ok(cs: Seq<(String, crate::engine::FsTree)>) -> bool
    decreases cs,
{
    cs.len() == 0 || (text_ok(cs[0].1) && children_text_ok(cs.drop_first()))
}

proof fn lemma_children_text_ok_at(cs: Seq<(String, crate::engine::FsTree)>, i: int)
    requires
        children_text_ok(cs),
        0 <= i < cs.len(),
    ensures
        text_ok(cs[i].1),
    decreases i,
{
    if i > 0 {
        assert(cs.drop_first()[i - 1] == cs[i]);
        lemma_children_text_ok_at(cs.drop_first(), i - 1);
    }
}

proof fn lemma_rec_path_chars(
    base: Seq<char>,
    t: crate::engine::FsTree,
    rec: RecView,
    algs: Seq<HashType>,
    ed: bool,
)
    requires
        text_ok(t),
        forall|c: int| 0 <= c < base.len() ==> base[c] != '\n',
        rec_in_item(base, t, rec, algs, ed),
    ensures
        forall|c: int| 0 <= c < rec.path.len() ==> #[trigger] rec.path[c] != '\n',
    decreases t,
{
    match t {
        crate::engine::FsTree::File(_) => {},
        crate::engine::FsTree::Unreadable(_) => {},
        crate::engine::FsTree::Dir(cs) => {
            if !(cs@.len() == 0 && ed && rec == crate::engine::dir_rec(base)) {
                lemma_children_member_index(base, cs@, rec, algs, ed);
                let i = choose|i: int|
                    0 <= i < cs@.len() && rec_in_item(
                        base + seq!['/'] + (#[trigger] cs@[i]).0@,
                        cs@[i].1,
                        rec,
                        algs,
                        ed,
                    );
                lemma_children_text_ok_at(cs@, i);
                let b2 = base + seq!['/'] + cs@[i].0@;
                assert forall|c: int| 0 <= c < b2.len() implies b2[c] != '\n' by {
                    if c > base.len() {
                        assert(b2[c] == cs@[i].0@[c - base.len() - 1]);
                    }
                }
                lemma_rec_path_chars(b2, cs@[i].1, rec, algs, ed);
            }
        },
    }
}

/// Every record of a walk over newline-free paths and names is safe on a
/// manifest data line: its path holds no newline, its digests (a joined
/// hex list) hold neither newline nor the line's separator, and it has no
/// digests only for an opted-in empty directory.  (With that, such a
/// record satisfies `rec_wf` as soon as its digest list is nonempty.)
pub proof fn lemma_walk_rec_line_safe(
    q: Seq<(Seq<char>, crate::engine::FsTree)>,
    algs: Seq<HashType>,
    ed: bool,
    r: RecView,
)
    requires
        algs.len() >= 1,
        walk(q, algs, ed).recs.contains(r),
        forall|k: int| 0 <= k < q.len() ==> text_ok((#[trigger] q[k]).1),
        forall|k: int, c: int|
            0 <= k < q.len() && 0 <= c < q[k].0.len() ==> #[trigger] q[k].0[c] != '\n',
    ensures
        forall|c: int| 0 <= c < r.path.len() ==> #[trigger] r.path[c] != '\n',
        r.digests matches Some(d) ==> forall|c: int|
            0 <= c < d.len() ==> #[trigger] d[c] != '\n' && d[c] != '|',
        r.digests is None ==> ed,
{
    lemma_walk_provenance(q, algs, ed, r);
    let k = choose|k: int| 0 <= k < q.len() && rec_in_item(q[k].0, #[trigger] q[k].1, r, algs, ed);
    lemma_rec_path_chars(q[k].0, q[k].1, r, algs, ed);
    if r.digests is None {
        lemma_empty_rec_is_empty_dir(q[k].0, q[k].1, r, algs, ed);
    } else {
        lemma_rec_digests_chars(q[k].0, q[k].1, r, algs, ed);
    }
}

proof fn lemma_rec_digests_chars(
    base: Seq<char>,
    t: crate::engine::FsTree,
    rec: RecView,
    algs: Seq<HashType>,
    ed: bool,
)
    requires
        rec_in_item(base, t, rec, algs, ed),
        rec.digests is Some,
    ensures
        forall|c: int|
            0 <= c < rec.digests.unwrap().len() ==> #[trigger] rec.digests.unwrap()[c] != '\n'
                && rec.digests.unwrap()[c] != '|',
    decreases t,
{
    match t {
        crate::engine::FsTree::File(d) => {
            lemma_joined_digests_chars(algs, d@);
        },
        crate::engine::FsTree::Unreadable(_) => {},
        crate::engine::FsTree::Dir(cs) => {
            if !(cs@.len() == 0 && ed && rec == crate::engine::dir_rec(base)) {
                lemma_children_member_index(base, cs@, rec, algs, ed);
                let i = choose|i: int|
                    0 <= i < cs@.len() && rec_in_item(
                        base + seq!['/'] + (#[trigger] cs@[i]).0@,
                        cs@[i].1,
                        rec,
                        algs,
                        ed,
                    );
                lemma_rec_digests_chars(base + seq!['/'] + cs@[i].0@, cs@[i].1, rec, algs, ed);
            }
        },
    }
}

// ---------------------------------------------------------------------------
// Each visited file yields one record: no two records share a path
// ---------------------------------------------------------------------------
/// `p` lies in the subtree of paths under `base`: it is `base` itself, or
/// `base` followed by a `/` and more.
pub open spec fn path_ext(base: Seq<char>, p: Seq<char>) -> bool {
    p == base || (p.len() > base.len() && p.subrange(0, base.len() as int) == base && p[base.len() as int]
        == '/')
}

/// Well-formed directory naming: every entry name is nonempty and free of
/// `/`, sibling names are distinct, and so on below.
pub open spec fn names_ok(t: crate::engine::FsTree) -> bool
    decreases t,
{
    match t {
        crate::engine::FsTree::File(_) => true,
        crate::engine::FsTree::Unreadable(_) => true,
        crate::engine::FsTree::Dir(cs) => {
            &&& forall|i: int|
                0 <= i < cs@.len() ==> (#[trigger] cs@[i].0)@.len() > 0 && forall|c: int|
                    0 <= c < cs@[i].0@.len() ==> cs@[i].0@[c] != '/'
            &&& forall|i: int, j: int|
                0 <= i < cs@.len() && 0 <= j < cs@.len() && i != j ==> (#[trigger] cs@[i].0)@ != (
                #[trigger] cs@[j].0)@
            &&& children_names_ok(cs@)
        },
    }
}

pub open spec fn children_names_ok(cs: Seq<(String, crate::engine::FsTree)>) -> bool
    decreases cs,
{
    cs.len() == 0 || (names_ok(cs[0].1) && children_names_ok(cs.drop_first()))
}

proof fn lemma_children_names_ok_at(cs: Seq<(String, crate::engine::FsTree)>, i: int)
    requires
        children_names_ok(cs),
        0 <= i < cs.len(),
    ensures
        names_ok(cs[i].1),
    decreases i,
{
    if i > 0 {
        assert(cs.drop_first()[i - 1] == cs[i]);
        lemma_children_names_ok_at(cs.drop_first(), i - 1);
    }
}

/// Two extensions of one base overlap only along the base chain.
proof fn lemma_ext_overlap(b1: Seq<char>, b2: Seq<char>, p: Seq<char>)
    requires
        path_ext(b1, p),
        path_ext(b2, p),
        b1.len() < b2.len(),
    ensures
        path_ext(b1, b2),
{
    if p == b2 {
    } else {
        assert(b2.subrange(0, b1.len() as int) =~= p.subrange(0, b1.len() as int)) by {
            assert forall|c: int| 0 <= c < b1.len() implies b2.subrange(0, b1.len() as int)[c]
                == p.subrange(0, b1.len() as int)[c] by {
                assert(b2[c] == p.subrange(0, b2.len() as int)[c]);
            }
        }
        assert(p.subrange(0, b1.len() as int) == b1) by {
            if p != b1 {
            }
        }
        assert(b2[b1.len() as int] == p.subrange(0, b2.len() as int)[b1.len() as int]);
        assert(p[b1.len() as int] == '/');
    }
}

/// Extension is transitive.
proof fn lemma_ext_trans(b1: Seq<char>, b2: Seq<char>, p: Seq<char>)
    requires
        path_ext(b1, b2),
        path_ext(b2, p),
    ensures
        path_ext(b1, p),
{
    if b1 != b2 && b2 != p {
        assert(p.subrange(0, b1.len() as int) =~= b1) by {
            assert forall|c: int| 0 <= c < b1.len() implies p[c] == b1[c] by {
                assert(p.subrange(0, b2.len() as int)[c] == p[c]);
                assert(b2.subrange(0, b1.len() as int)[c] == b2[c]);
            }
        }
        assert(p[b1.len() as int] == p.subrange(0, b2.len() as int)[b1.len() as int]);
        assert(p[b1.len() as int] == b2[b1.len() as int]);
        assert(b2[b1.len() as int] == '/');
    }
}

/// A child's base extends its directory's base.
proof fn lemma_child_base_ext(base: Seq<char>, name: Seq<char>)
    requires
        name.len() > 0,
    ensures
        path_ext(base, base + seq!['/'] + name),
        (base + seq!['/'] + name).len() > base.len(),
{
    let b2 = base + seq!['/'] + name;
    assert(b2.subrange(0, base.len() as int) =~= base);
    assert(b2[base.len() as int] == '/');
}

/// Subtrees under distinctly named siblings have no path in common.
proof fn lemma_sibling_paths_differ(
    base: Seq<char>,
    n1: Seq<char>,
    n2: Seq<char>,
    p1: Seq<char>,
    p2: Seq<char>,
)
    requires
        n1 != n2,
        n1.len() > 0,
        n2.len() > 0,
        forall|c: int| 0 <= c < n1.len() ==> n1[c] != '/',
        forall|c: int| 0 <= c < n2.len() ==> n2[c] != '/',
        path_ext(base + seq!['/'] + n1, p1),
        path_ext(base + seq!['/'] + n2, p2),
    ensures
        p1 != p2,
{
    let b1 = base + seq!['/'] + n1;
    let b2 = base + seq!['/'] + n2;
    if p1 == p2 {
        assert(b1 != b2) by {
            if b1 == b2 {
                assert(n1 =~= n2) by {
                    assert forall|c: int| 0 <= c < n1.len() implies n1[c] == n2[c] by {
                        assert(b1[base.len() + 1 + c] == n1[c]);
                        assert(b2[base.len() + 1 + c] == n2[c]);
                    }
                }
            }
        }
        if b1.len() == b2.len() {
            // equal-length distinct bases cannot share an extension
            if p1 == b1 && p2 == b2 {
            } else if p1 == b1 {
                assert(p2.subrange(0, b2.len() as int) == b2);
                assert(b1 =~= b2) by {
                    assert forall|c: int| 0 <= c < b1.len() implies b1[c] == b2[c] by {
                        assert(p1.subrange(0, b2.len() as int)[c] == p1[c]);
                    }
                }
            } else {
                assert(p1.subrange(0, b1.len() as int) == b1);
                assert(p2.subrange(0, b2.len() as int) == b2);
                assert(b1 =~= b2) by {
                    assert forall|c: int| 0 <= c < b1.len() implies b1[c] == b2[c] by {
                        assert(p1.subrange(0, b1.len() as int)[c] == p1[c]);
                        assert(p2.subrange(0, b2.len() as int)[c] == p2[c]);
                    }
                }
            }
        } else if b1.len() < b2.len() {
            lemma_ext_overlap(b1, b2, p1);
            // then the second name holds a `/`
            assert(b2.subrange(0, b1.len() as int) == b1);
            assert(b2[b1.len() as int] == '/');
            assert(b2[b1.len() as int] == n2[b1.len() - base.len() - 1]);
        } else {
            lemma_ext_overlap(b2, b1, p1);
            assert(b1.subrange(0, b2.len() as int) == b2);
            assert(b1[b2.len() as int] == '/');
            assert(b1[b2.len() as int] == n1[b2.len() - base.len() - 1]);
        }
    }
}

/// Every record a node emits has its path inside the node's subtree.
proof fn lemma_rec_path_ext(
    base: Seq<char>,
    t: crate::engine::FsTree,
    rec: RecView,
    algs: Seq<HashType>,
    ed: bool,
)
    requires
        names_ok(t),
        rec_in_item(base, t, rec, algs, ed),
    ensures
        path_ext(base, rec.path),
    decreases t,
{
    match t {
        crate::engine::FsTree::File(_) => {},
        crate::engine::FsTree::Unreadable(_) => {},
        crate::engine::FsTree::Dir(cs) => {
            if !(cs@.len() == 0 && ed && rec == crate::engine::dir_rec(base)) {
                assert forall|i: int| 0 <= i < cs@.len() implies (#[trigger] cs@[i].0)@.len()
                    > 0 by {}
                lemma_rec_path_ext_children(base, cs@, rec, algs, ed);
            }
        },
    }
}

proof fn lemma_rec_path_ext_children(
    base: Seq<char>,
    cs: Seq<(String, crate::engine::FsTree)>,
    rec: RecView,
    algs: Seq<HashType>,
    ed: bool,
)
    requires
        forall|i: int| 0 <= i < cs.len() ==> (#[trigger] cs[i].0)@.len() > 0,
        children_names_ok(cs),
        rec_in_children(base, cs, rec, algs, ed),
    ensures
        path_ext(base, rec.path),
    decreases cs,
{
    if rec_in_item(base + seq!['/'] + cs[0].0@, cs[0].1, rec, algs, ed) {
        lemma_rec_path_ext(base + seq!['/'] + cs[0].0@, cs[0].1, rec, algs, ed);
        lemma_child_base_ext(base, cs[0].0@);
        lemma_ext_trans(base, base + seq!['/'] + cs[0].0@, rec.path);
    } else {
        assert forall|i: int| 0 <= i < cs.drop_first().len() implies (#[trigger] cs.drop_first()[i].0)@.len()
            > 0 by {
            assert(cs.drop_first()[i] == cs[i + 1]);
        }
        lemma_rec_path_ext_children(base, cs.drop_first(), rec, algs, ed);
    }
}

/// The child index behind a membership among a directory's children.
proof fn lemma_children_member_index(
    base: Seq<char>,
    cs: Seq<(String, crate::engine::FsTree)>,
    rec: RecView,
    algs: Seq<HashType>,
    ed: bool,
)
    requires
        rec_in_children(base, cs, rec, algs, ed),
    ensures
        exists|i: int|
            0 <= i < cs.len() && rec_in_item(base + seq!['/'] + (#[trigger] cs[i]).0@, cs[i].1, rec, algs, ed),
    decreases cs,
{
    if rec_in_item(base + seq!['/'] + cs[0].0@, cs[0].1, rec, algs, ed) {
        assert(rec_in_item(base + seq!['/'] + cs[0].0@, cs[0].1, rec, algs, ed));
    } else {
        lemma_children_member_index(base, cs.drop_first(), rec, algs, ed);
        let i = choose|i: int|
            0 <= i < cs.drop_first().len() && rec_in_item(
                base + seq!['/'] + (#[trigger] cs.drop_first()[i]).0@,
                cs.drop_first()[i].1,
                rec,
                algs,
                ed,
            );
        assert(cs.drop_first()[i] == cs[i + 1]);
        assert(rec_in_item(base + seq!['/'] + cs[i + 1].0@, cs[i + 1].1, rec, algs, ed));
    }
}

/// Within one well-named tree, a path determines its record: the walk can
/// never emit two different records for one path.
proof fn lemma_item_recs_distinct(
    base: Seq<char>,
    t: crate::engine::FsTree,
    r1: RecView,
    r2: RecView,
    algs: Seq<HashType>,
    ed: bool,
)
    requires
        names_ok(t),
        rec_in_item(base, t, r1, algs, ed),
        rec_in_item(base, t, r2, algs, ed),
        r1.path == r2.path,
    ensures
        r1 == r2,
    decreases t,
{
    match t {
        crate::engine::FsTree::File(_) => {},
        crate::engine::FsTree::Unreadable(_) => {},
        crate::engine::FsTree::Dir(cs) => {
            if cs@.len() == 0 {
                // both records are the empty-directory record
            } else {
                lemma_children_member_index(base, cs@, r1, algs, ed);
                lemma_children_member_index(base, cs@, r2, algs, ed);
                let i = choose|i: int|
                    0 <= i < cs@.len() && rec_in_item(
                        base + seq!['/'] + (#[trigger] cs@[i]).0@,
                        cs@[i].1,
                        r1,
                        algs,
                        ed,
                    );
                let j = choose|j: int|
                    0 <= j < cs@.len() && rec_in_item(
                        base + seq!['/'] + (#[trigger] cs@[j]).0@,
                        cs@[j].1,
                        r2,
                        algs,
                        ed,
                    );
                lemma_children_names_ok_at(cs@, i);
                lemma_children_names_ok_at(cs@, j);
                if i == j {
                    lemma_item_recs_distinct(base + seq!['/'] + cs@[i].0@, cs@[i].1, r1, r2, algs, ed);
                } else {
                    lemma_rec_path_ext(base + seq!['/'] + cs@[i].0@, cs@[i].1, r1, algs, ed);
                    lemma_rec_path_ext(base + seq!['/'] + cs@[j].0@, cs@[j].1, r2, algs, ed);
                    lemma_sibling_paths_differ(base, cs@[i].0@, cs@[j].0@, r1.path, r2.path);
                }
            }
        },
    }
}

/// No two of the walk's records share a path.
pub open spec fn paths_distinct(rs: Seq<RecView>) -> bool {
    forall|i: int, j: int|
        0 <= i < j < rs.len() ==> (#[trigger] rs[i]).path != (#[trigger] rs[j]).path
}

/// Well-formed work items: well-named trees at paths none of which lies
/// inside another's subtree.
pub open spec fn items_wf(q: Seq<(Seq<char>, crate::engine::FsTree)>) -> bool {
    &&& forall|k: int| 0 <= k < q.len() ==> names_ok((#[trigger] q[k]).1)
    &&& forall|i: int, j: int|
        0 <= i < q.len() && 0 <= j < q.len() && i != j ==> (#[trigger] q[i]).0 != (
        #[trigger] q[j]).0 && !path_ext(q[i].0, q[j].0)
}

/// No record of a walk over separated items takes a given path that lies
/// in none of the items' subtrees.
proof fn lemma_walk_path_fresh(
    q: Seq<(Seq<char>, crate::engine::FsTree)>,
    algs: Seq<HashType>,
    ed: bool,
    p0: Seq<char>,
)
    requires
        forall|k: int| 0 <= k < q.len() ==> names_ok((#[trigger] q[k]).1),
        forall|k: int|
            0 <= k < q.len() ==> (#[trigger] q[k]).0 != p0 && !path_ext(q[k].0, p0),
    ensures
        forall|j: int|
            0 <= j < walk(q, algs, ed).recs.len() ==> (#[trigger] walk(q, algs, ed).recs[j]).path
                != p0,
{
    let w = walk(q, algs, ed);
    assert forall|j: int| 0 <= j < w.recs.len() implies (#[trigger] w.recs[j]).path != p0 by {
        let r = w.recs[j];
        assert(w.recs.contains(r));
        lemma_walk_provenance(q, algs, ed, r);
        let k = choose|k: int|
            0 <= k < q.len() && rec_in_item(q[k].0, #[trigger] q[k].1, r, algs, ed);
        lemma_rec_path_ext(q[k].0, q[k].1, r, algs, ed);
        if r.path == p0 {
            assert(path_ext(q[k].0, p0));
        }
    }
}

/// Every record of a walk over separated, well-named items has a path all
/// of its own: exactly one record per path.
pub proof fn lemma_walk_paths_distinct(
    q: Seq<(Seq<char>, crate::engine::FsTree)>,
    algs: Seq<HashType>,
    ed: bool,
)
    requires
        items_wf(q),
    ensures
        paths_distinct(walk(q, algs, ed).recs),
    decreases crate::engine::qsize(q), q.len(),
{
    let w = walk(q, algs, ed);
    if q.len() == 0 {
        return ;
    }
    let (p, t) = q[0];
    match t {
        crate::engine::FsTree::File(d) => {
            let qd = q.drop_first();
            assert forall|k: int| 0 <= k < qd.len() implies names_ok((#[trigger] qd[k]).1) && qd[k].0
                != p && !path_ext(qd[k].0, p) && !path_ext(p, qd[k].0) by {
                assert(qd[k] == q[k + 1]);
            }
            assert(items_wf(qd)) by {
                assert forall|i: int, j: int|
                    0 <= i < qd.len() && 0 <= j < qd.len() && i != j implies (#[trigger] qd[i]).0
                    != (#[trigger] qd[j]).0 && !path_ext(qd[i].0, qd[j].0) by {
                    assert(qd[i] == q[i + 1]);
                    assert(qd[j] == q[j + 1]);
                }
            }
            lemma_walk_paths_distinct(qd, algs, ed);
            lemma_walk_path_fresh(qd, algs, ed, p);
            let rest = walk(qd, algs, ed);
            assert forall|i: int, j: int| 0 <= i < j < w.recs.len() implies (#[trigger] w.recs[i]).path
                != (#[trigger] w.recs[j]).path by {
                if i == 0 {
                    assert(w.recs[j] == rest.recs[j - 1]);
                } else {
                    assert(w.recs[i] == rest.recs[i - 1]);
                    assert(w.recs[j] == rest.recs[j - 1]);
                }
            }
        },
        crate::engine::FsTree::Unreadable(_) => {
        },
        crate::engine::FsTree::Dir(cs) => {
            crate::engine::lemma_qsize_concat(q.drop_first(), crate::engine::child_items(p, cs@));
            crate::engine::lemma_qsize_child_items(p, cs@);
            let qd = q.drop_first();
            let ci = crate::engine::child_items(p, cs@);
            let q2 = qd + ci;
            assert forall|k: int| 0 <= k < qd.len() implies names_ok((#[trigger] qd[k]).1) && qd[k].0
                != p && !path_ext(qd[k].0, p) && !path_ext(p, qd[k].0) by {
                assert(qd[k] == q[k + 1]);
            }
            // the queue after expanding the directory is still separated
            assert forall|k: int| 0 <= k < q2.len() implies names_ok((#[trigger] q2[k]).1) by {
                if k < qd.len() {
                    assert(q2[k] == qd[k]);
                } else {
                    assert(q2[k] == ci[k - qd.len()]);
                    lemma_children_names_ok_at(cs@, k - qd.len());
                }
            }
            assert forall|i: int, j: int|
                0 <= i < q2.len() && 0 <= j < q2.len() && i != j implies (#[trigger] q2[i]).0 != (
            #[trigger] q2[j]).0 && !path_ext(q2[i].0, q2[j].0) by {
                lemma_q2_separated(q, p, cs@, i, j);
            }
            assert(items_wf(q2));
            lemma_walk_paths_distinct(q2, algs, ed);
            let rest = walk(q2, algs, ed);
            if cs@.len() == 0 && ed {
                // the head record's path is the directory's own
                assert forall|k: int| 0 <= k < q2.len() implies (#[trigger] q2[k]).0 != p
                    && !path_ext(q2[k].0, p) by {
                    assert(q2[k] == qd[k]);
                }
                lemma_walk_path_fresh(q2, algs, ed, p);
                assert forall|i: int, j: int| 0 <= i < j < w.recs.len() implies (
                #[trigger] w.recs[i]).path != (#[trigger] w.recs[j]).path by {
                    if i == 0 {
                        assert(w.recs[j] == rest.recs[j - 1]);
                    } else {
                        assert(w.recs[i] == rest.recs[i - 1]);
                        assert(w.recs[j] == rest.recs[j - 1]);
                    }
                }
            }
        },
    }
}

/// Expanding a directory keeps the queue separated: its children lie in
/// its own subtree, away from every other queued item.
proof fn lemma_q2_separated(
    q: Seq<(Seq<char>, crate::engine::FsTree)>,
    p: Seq<char>,
    cs: Seq<(String, crate::engine::FsTree)>,
    i: int,
    j: int,
)
    requires
        items_wf(q),
        q.len() > 0,
        q[0].0 == p,
        q[0].1 matches crate::engine::FsTree::Dir(v) && v@ == cs,
        0 <= i < q.drop_first().len() + cs.len(),
        0 <= j < q.drop_first().len() + cs.len(),
        i != j,
    ensures
        ({
            let q2 = q.drop_first() + crate::engine::child_items(p, cs);
            q2[i].0 != q2[j].0 && !path_ext(q2[i].0, q2[j].0)
        }),
{
    let qd = q.drop_first();
    let ci = crate::engine::child_items(p, cs);
    let q2 = qd + ci;
    let nd = qd.len() as int;
    if i < nd && j < nd {
        assert(q2[i] == qd[i] && qd[i] == q[i + 1]);
        assert(q2[j] == qd[j] && qd[j] == q[j + 1]);
    } else if i < nd && j >= nd {
        // an old item against a new child
        assert(q2[i] == q[i + 1]);
        let name = cs[j - nd].0@;
        assert(q2[j].0 == p + seq!['/'] + name);
        assert(name.len() > 0);
        lemma_child_base_ext(p, name);
        let d = q[i + 1].0;
        let bc = q2[j].0;
        if d == bc {
            assert(path_ext(p, d));
        }
        if path_ext(d, bc) {
            if d != bc {
                if d.len() < p.len() {
                    lemma_ext_overlap(d, p, bc);
                } else if d.len() > p.len() {
                    lemma_ext_overlap(p, d, bc);
                    assert(path_ext(p, d));
                } else {
                    // equal lengths: both are the same prefix of the child
                    assert(d =~= p) by {
                        assert forall|c: int| 0 <= c < d.len() implies d[c] == p[c] by {
                            assert(bc.subrange(0, d.len() as int)[c] == bc[c]);
                            assert(bc.subrange(0, p.len() as int)[c] == bc[c]);
                        }
                    }
                }
            }
        }
    } else if i >= nd && j < nd {
        // a new child against an old item
        assert(q2[j] == q[j + 1]);
        let name = cs[i - nd].0@;
        assert(q2[i].0 == p + seq!['/'] + name);
        assert(name.len() > 0);
        lemma_child_base_ext(p, name);
        let d = q[j + 1].0;
        let bc = q2[i].0;
        if d == bc {
            assert(path_ext(p, d));
        }
        if path_ext(bc, d) {
            lemma_ext_trans(p, bc, d);
        }
    } else {
        // two new children: distinctly named siblings
        let n1 = cs[i - nd].0@;
        let n2 = cs[j - nd].0@;
        assert(q2[i].0 == p + seq!['/'] + n1);
        assert(q2[j].0 == p + seq!['/'] + n2);
        assert(n1 != n2);
        if q2[i].0 == q2[j].0 || path_ext(q2[i].0, q2[j].0) {
            lemma_sibling_paths_differ(p, n1, n2, q2[j].0, q2[j].0);
        }
    }
}

/// Conversely, a walk that ran to completion emits a record for every
/// node its items reach: nothing a tree holds goes unrecorded.
pub proof fn lemma_walk_complete(
    q: Seq<(Seq<char>, crate::engine::FsTree)>,
    algs: Seq<HashType>,
    ed: bool,
    r: RecView,
    k: int,
)
    requires
        walk(q, algs, ed).err is None,
        0 <= k < q.len(),
        rec_in_item(q[k].0, q[k].1, r, algs, ed),
    ensures
        walk(q, algs, ed).recs.contains(r),
    decreases crate::engine::qsize(q), q.len(),
{
    let w = walk(q, algs, ed);
    let (p, t) = q[0];
    match t {
        crate::engine::FsTree::File(d) => {
            let rest = walk(q.drop_first(), algs, ed);
            if k == 0 {
                assert(w.recs[0] == r);
            } else {
                assert(q.drop_first()[k - 1] == q[k]);
                lemma_walk_complete(q.drop_first(), algs, ed, r, k - 1);
                let j = choose|j: int| 0 <= j < rest.recs.len() && rest.recs[j] == r;
                assert(w.recs[j + 1] == r);
            }
        },
        crate::engine::FsTree::Unreadable(_) => {},
        crate::engine::FsTree::Dir(cs) => {
            crate::engine::lemma_qsize_concat(q.drop_first(), crate::engine::child_items(p, cs@));
            crate::engine::lemma_qsize_child_items(p, cs@);
            let qd = q.drop_first();
            let ci = crate::engine::child_items(p, cs@);
            let q2 = qd + ci;
            let rest = walk(q2, algs, ed);
            if k == 0 {
                if cs@.len() == 0 && ed && r == crate::engine::dir_rec(p) {
                    assert(w.recs[0] == r);
                } else {
                    assert(rec_in_children(p, cs@, r, algs, ed));
                    lemma_children_member_index(p, cs@, r, algs, ed);
                    let i = choose|i: int|
                        0 <= i < cs@.len() && rec_in_item(
                            p + seq!['/'] + (#[trigger] cs@[i]).0@,
                            cs@[i].1,
                            r,
                            algs,
                            ed,
                        );
                    assert(q2[qd.len() + i] == ci[i]);
                    assert(ci[i].0 == p + seq!['/'] + cs@[i].0@ && ci[i].1 == cs@[i].1);
                    lemma_walk_complete(q2, algs, ed, r, qd.len() + i);
                    lemma_rest_contains(w, rest, r, cs@.len() == 0 && ed);
                }
            } else {
                assert(q2[k - 1] == qd[k - 1] && qd[k - 1] == q[k]);
                lemma_walk_complete(q2, algs, ed, r, k - 1);
                lemma_rest_contains(w, rest, r, cs@.len() == 0 && ed);
            }
        },
    }
}

/// Membership carries from the tail of the walk to the whole.
proof fn lemma_rest_contains(
    w: crate::engine::WalkOut,
    rest: crate::engine::WalkOut,
    r: RecView,
    with_head: bool,
)
    requires
        rest.recs.contains(r),
        !with_head ==> w.recs == rest.recs,
        with_head ==> w.recs.len() == rest.recs.len() + 1 && forall|j: int|
            0 <= j < rest.recs.len() ==> #[trigger] w.recs[j + 1] == rest.recs[j],
    ensures
        w.recs.contains(r),
{
    let j = choose|j: int| 0 <= j < rest.recs.len() && rest.recs[j] == r;
    if with_head {
        assert(w.recs[j + 1] == r);
    }
}

// ---------------------------------------------------------------------------
// Header lines parse back
// ---------------------------------------------------------------------------
pub proof fn lemma_version_line(h: HdrView)
    requires
        hdr_wf(h),
    ensures
        version_line_ok(vline(h)),
        version_of(vline(h)) == h.version,
        forall|i: int| 0 <= i < vline(h).len() ==> #[trigger] vline(h)[i] != '\n',
{
    reveal_strlit("version ");
    reveal_strlit("version");
    assert("version "@.len() == 8);
    assert("version"@.len() == 7);
    let s = vline(h);
    assert(s[7] == ' ');
    assert forall|j: int| 7 < j < s.len() implies s[j] != ' ' by {
        assert(s[j] == h.version[j - 8]);
    }
    lemma_last_index_unique(s, ' ', 7);
    assert(s.subrange(0, 7) =~= "version"@);
    assert(version_of(s) =~= h.version);
    assert forall|i: int| 0 <= i < s.len() implies s[i] != '\n' by {
        if i >= 8 {
            assert(s[i] == h.version[i - 8]);
        }
    }
}

pub proof fn lemma_algo_line(h: HdrView)
    requires
        hdr_wf(h),
    ensures
        algo_line_ok(aline(h)),
        algo_part(aline(h)) == algo_tokens(h.algs),
        parse_pieces(split_commas(algo_part(aline(h)))) == Some(h.algs),
        forall|i: int| 0 <= i < aline(h).len() ==> #[trigger] aline(h)[i] != '\n',
{
    reveal_strlit("algo ");
    reveal_strlit("algo");
    assert("algo "@.len() == 5);
    assert("algo"@.len() == 4);
    let s = aline(h);
    lemma_algo_tokens_parse(h.algs);
    assert(s[4] == ' ');
    assert forall|j: int| 0 <= j < 4 implies s[j] != ' ' by {}
    lemma_first_index_unique(s, ' ', 4);
    assert(s.subrange(0, 4) =~= "algo"@);
    assert(algo_part(s) =~= algo_tokens(h.algs));
    assert forall|i: int| 0 <= i < s.len() implies s[i] != '\n' by {
        if i >= 5 {
            assert(s[i] == algo_tokens(h.algs)[i - 5]);
        }
    }
}

/// A well-formed timestamp has no newline, and its only spaces are those
/// of the placeholder (at offsets 3 within it, never followed by `-`).
pub proof fn lemma_ts_chars(t: Seq<char>)
    requires
        ts_wf(t),
    ensures
        forall|i: int| 0 <= i < t.len() ==> #[trigger] t[i] != '\n',
        t.len() >= 1,
        t[0] != '-',
        forall|i: int| 0 <= i < t.len() && #[trigger] t[i] == ' ' ==> i + 1 < t.len() && t[i + 1]
            != '-',
{
    reveal_strlit("[NO DATE]");
    assert("[NO DATE]"@.len() == 9);
    if t == "[NO DATE]"@ {
        assert forall|i: int| 0 <= i < t.len() && #[trigger] t[i] == ' ' implies i + 1 < t.len()
            && t[i + 1] != '-' by {
            assert(i == 3);
        }
    }
}

pub proof fn lemma_time_line(h: HdrView)
    requires
        hdr_wf(h),
    ensures
        time_line_ok(tline(h)),
        first_sep(tline(h)) == 11 + h.start.len(),
        time_start_of(tline(h)) == h.start,
        time_finish_of(tline(h)) == h.fin,
        forall|i: int| 0 <= i < tline(h).len() ==> #[trigger] tline(h)[i] != '\n',
{
    reveal_strlit("time_start ");
    reveal_strlit("time_start");
    reveal_strlit(" - time_finish ");
    reveal_strlit("time_finish ");
    reveal_strlit("time_finish");
    reveal_strlit("[NO DATE]");
    assert("time_start "@.len() == 11);
    assert("time_start"@.len() == 10);
    assert(" - time_finish "@.len() == 15);
    assert("time_finish "@.len() == 12);
    assert("time_finish"@.len() == 11);
    assert("[NO DATE]"@.len() == 9);
    let s = tline(h);
    let n = h.start.len() as int;
    lemma_ts_chars(h.start);
    lemma_ts_chars(h.fin);
    // the separator sits right after the start timestamp
    assert(s[11 + n] == ' ');
    assert(s[11 + n + 1] == '-');
    assert(s[11 + n + 2] == ' ');
    assert(sep_at(s, 11 + n));
    assert forall|j: int| 0 <= j < 11 + n implies !sep_at(s, j) by {
        if sep_at(s, j) {
            if j < 10 {
                assert(s[j] == "time_start "@[j]);
                assert(s[j] != ' ');
            } else if j == 10 {
                assert(s[11] == h.start[0]);
                assert(s[11] != '-');
            } else {
                assert(s[j] == h.start[j - 11]);
                assert(h.start[j - 11] == ' ');
                if j - 11 + 1 < n {
                    assert(s[j + 1] == h.start[j - 10]);
                    assert(h.start[j - 10] != '-');
                } else {
                    assert(j == 10 + n);
                    assert(s[j + 1] == ' ');
                }
            }
        }
    }
    crate::checker::lemma_first_sep_unique(s, 11 + n);
    // the left part
    let left = s.subrange(0, 11 + n);
    assert(left =~= "time_start "@ + h.start);
    assert(left[10] == ' ');
    assert forall|j: int| 0 <= j < 10 implies left[j] != ' ' by {
        assert(left[j] == "time_start "@[j]);
    }
    lemma_first_index_unique(left, ' ', 10);
    assert(left.subrange(0, 10) =~= "time_start"@);
    assert(left.subrange(11, left.len() as int) =~= h.start);
    assert(time_part_ok(left, "time_start"@));
    // the right part
    let right = s.subrange(11 + n + 3, s.len() as int);
    assert(right =~= "time_finish "@ + h.fin);
    assert(right[11] == ' ');
    assert forall|j: int| 0 <= j < 11 implies right[j] != ' ' by {
        assert(right[j] == "time_finish "@[j]);
    }
    lemma_first_index_unique(right, ' ', 11);
    assert(right.subrange(0, 11) =~= "time_finish"@);
    assert(right.subrange(12, right.len() as int) =~= h.fin);
    assert(time_part_ok(right, "time_finish"@));
    assert(time_start_of(s) == h.start);
    assert(time_finish_of(s) == h.fin);
    assert forall|i: int| 0 <= i < s.len() implies s[i] != '\n' by {
        if i < 11 {
            assert(s[i] == "time_start "@[i]);
        } else if i < 11 + n {
            assert(s[i] == h.start[i - 11]);
        } else if i < 11 + n + 15 {
            assert(s[i] == " - time_finish "@[i - 11 - n]);
        } else {
            assert(s[i] == h.fin[i - 11 - n - 15]);
        }
    }
}

// ---------------------------------------------------------------------------
// The rendered manifest splits back into its lines
// ---------------------------------------------------------------------------
/// The data lines split one per record.
pub proof fn lemma_split_rlines(recs: Seq<RecView>, ed: bool)
    requires
        recs_wf(recs, ed),
    ensures
        split_lines(rlines(recs)) == recs.map(|i: int, r: RecView| rec_line(r)),
    decreases recs.len(),
{
    if recs.len() == 0 {
        assert(split_lines(rlines(recs)) =~= recs.map(|i: int, r: RecView| rec_line(r)));
    } else {
        lemma_rlines_first(recs);
        let r0 = recs[0];
        assert(rline(r0) =~= rec_line(r0) + seq!['\n']);
        assert(rlines(recs) =~= rec_line(r0) + seq!['\n'] + rlines(recs.drop_first()));
        assert forall|i: int| 0 <= i < rec_line(r0).len() implies #[trigger] rec_line(r0)[i]
            != '\n' by {
            if i < r0.path.len() {
                assert(rec_line(r0)[i] == r0.path[i]);
            } else if i > r0.path.len() {
                assert(rec_line(r0)[i] == rec_digests(r0)[i - r0.path.len() - 1]);
            }
        }
        crate::checker::lemma_split_lines_block(rec_line(r0), rlines(recs.drop_first()));
        assert(recs_wf(recs.drop_first(), ed)) by {
            assert forall|k: int| 0 <= k < recs.drop_first().len() implies rec_wf(
                #[trigger] recs.drop_first()[k],
                ed,
            ) by {
                assert(recs.drop_first()[k] == recs[k + 1]);
            }
        }
        lemma_split_rlines(recs.drop_first(), ed);
        assert(split_lines(rlines(recs)) =~= recs.map(|i: int, r: RecView| rec_line(r)));
    }
}

/// The whole manifest splits into the three header lines and one line per
/// record.
pub proof fn lemma_manifest_lines(h: HdrView, recs: Seq<RecView>, ed: bool)
    requires
        hdr_wf(h),
        recs_wf(recs, ed),
    ensures
        split_lines(manifest_render(h, recs)) == seq![vline(h), aline(h), tline(h)] + recs.map(
            |i: int, r: RecView| rec_line(r),
        ),
{
    let content = manifest_render(h, recs);
    lemma_version_line(h);
    lemma_algo_line(h);
    lemma_time_line(h);
    assert(content =~= vline(h) + seq!['\n'] + (aline(h) + seq!['\n'] + (tline(h) + seq!['\n']
        + rlines(recs))));
    crate::checker::lemma_split_lines_block(
        vline(h),
        aline(h) + seq!['\n'] + (tline(h) + seq!['\n'] + rlines(recs)),
    );
    crate::checker::lemma_split_lines_block(aline(h), tline(h) + seq!['\n'] + rlines(recs));
    crate::checker::lemma_split_lines_block(tline(h), rlines(recs));
    lemma_split_rlines(recs, ed);
    assert(split_lines(content) =~= seq![vline(h), aline(h), tline(h)] + recs.map(
        |i: int, r: RecView| rec_line(r),
    ));
}

/// Parsing a produced manifest recovers the header and every record, and
/// re-rendering what was parsed is byte-identical to the original.
pub proof fn lemma_manifest_round_trip(h: HdrView, recs: Seq<RecView>, ed: bool)
    requires
        hdr_wf(h),
        recs_wf(recs, ed),
    ensures
        ({
            let content = manifest_render(h, recs);
            let ls = split_lines(content);
            &&& ls.len() == 3 + recs.len()
            &&& header_ok(ls)
            &&& header_algs(ls) == h.algs
            &&& version_of(ls[0]) == h.version
            &&& time_start_of(ls[2]) == h.start
            &&& time_finish_of(ls[2]) == h.fin
            &&& forall|k: int|
                0 <= k < recs.len() ==> !line_bad(#[trigger] ls[3 + k]) && line_rec(ls[3 + k])
                    == recs[k] && (line_is_empty_dir(ls[3 + k]) <==> recs[k].digests is None)
            &&& manifest_render(
                HdrView {
                    version: version_of(ls[0]),
                    algs: header_algs(ls),
                    start: time_start_of(ls[2]),
                    fin: time_finish_of(ls[2]),
                },
                ls.skip(3).map(|i: int, l: Seq<char>| line_rec(l)),
            ) == content
        }),
{
    let content = manifest_render(h, recs);
    let ls = split_lines(content);
    lemma_manifest_lines(h, recs, ed);
    lemma_version_line(h);
    lemma_algo_line(h);
    lemma_time_line(h);
    assert(ls[0] == vline(h));
    assert(ls[1] == aline(h));
    assert(ls[2] == tline(h));
    assert forall|k: int| 0 <= k < recs.len() implies !line_bad(#[trigger] ls[3 + k]) && line_rec(
        ls[3 + k],
    ) == recs[k] && (line_is_empty_dir(ls[3 + k]) <==> recs[k].digests is None) by {
        assert(ls[3 + k] == rec_line(recs[k]));
        let r = recs[k];
        lemma_split_line_parts(r.path, rec_digests(r));
        match r.digests {
            Some(d) => {
                assert(line_rec(ls[3 + k]) == r);
            },
            None => {
                assert(rec_digests(r).len() == 0);
                assert(line_rec(ls[3 + k]) == r);
            },
        }
    }
    assert(ls.skip(3).map(|i: int, l: Seq<char>| line_rec(l)) =~= recs) by {
        assert forall|k: int| 0 <= k < recs.len() implies ls.skip(3).map(
            |i: int, l: Seq<char>| line_rec(l),
        )[k] == recs[k] by {
            assert(ls.skip(3)[k] == ls[3 + k]);
        }
    }
}

// ---------------------------------------------------------------------------
// Auditing what was produced
// ---------------------------------------------------------------------------
/// Processing live records that align one-to-one with the manifest's
/// remaining data lines accepts every one of them, carrying the findings
/// and flag along unchanged.
pub proof fn lemma_feed_aligned(
    lines: Seq<Seq<char>>,
    live: Seq<RecView>,
    k: int,
    finds0: Seq<FindV>,
    ae0: bool,
    ed: bool,
    early: bool,
)
    requires
        0 <= k <= live.len(),
        lines.len() == 3 + live.len(),
        forall|i: int|
            k <= i < live.len() ==> !line_bad(#[trigger] lines[3 + i]) && line_rec(lines[3 + i])
                == live[i] && (line_is_empty_dir(lines[3 + i]) ==> ed),
    ensures
        feed_spec(lines, 3 + k, Seq::<RecView>::empty(), finds0, ae0, live.skip(k), ed, early, false)
            == (StepOut {
            pos: lines.len() as int,
            backlog: Seq::<RecView>::empty(),
            finds: finds0,
            audit_err: ae0,
            canceled: false,
            err: None,
        }),
    decreases live.len() - k,
{
    if k == live.len() {
        assert(live.skip(k) =~= Seq::<RecView>::empty());
    } else {
        let l = live[k];
        assert(live.skip(k)[0] == l);
        let so = handle_spec(
            lines,
            3 + k,
            Seq::<RecView>::empty(),
            finds0,
            ae0,
            l,
            ed,
            early,
            false,
        );
        assert(sb_step(Seq::<RecView>::empty(), l, 0) == (crate::checker::SbOut {
            matched: false,
            finding: None::<FindV>,
            backlog: Seq::<RecView>::empty(),
        }));
        let sr = sr_step(lines, 3 + k, Seq::<RecView>::empty(), l, ed);
        assert(!line_bad(lines[3 + k]));
        assert(line_rec(lines[3 + k]) == l);
        assert(cmp_spec(l, l) == CmpRes::CEqual);
        assert(sr.matched);
        assert(so.pos == 3 + k + 1 && so.backlog == Seq::<RecView>::empty() && so.finds == finds0
            && so.audit_err == ae0 && so.canceled == false && so.err is None);
        assert(live.skip(k).drop_first() =~= live.skip(k + 1));
        lemma_feed_aligned(lines, live, k + 1, finds0, ae0, ed, early);
    }
}

/// Processing live records that align one-to-one with the manifest's data
/// lines, up to position `k`, just moves the read position along.
pub proof fn lemma_feed_through(
    lines: Seq<Seq<char>>,
    live: Seq<RecView>,
    i: int,
    k: int,
    f0: Seq<FindV>,
    a0: bool,
    ed: bool,
)
    requires
        0 <= i <= k <= live.len(),
        3 + k <= lines.len(),
        forall|j: int|
            i <= j < k ==> !line_bad(#[trigger] lines[3 + j]) && line_rec(lines[3 + j]) == live[j]
                && (line_is_empty_dir(lines[3 + j]) ==> ed),
    ensures
        feed_spec(lines, 3 + i, Seq::<RecView>::empty(), f0, a0, live.skip(i), ed, false, false)
            == feed_spec(
            lines,
            3 + k,
            Seq::<RecView>::empty(),
            f0,
            a0,
            live.skip(k),
            ed,
            false,
            false,
        ),
    decreases k - i,
{
    if i < k {
        let l = live[i];
        assert(live.skip(i)[0] == l);
        let so = handle_spec(lines, 3 + i, Seq::<RecView>::empty(), f0, a0, l, ed, false, false);
        assert(sb_step(Seq::<RecView>::empty(), l, 0) == (crate::checker::SbOut {
            matched: false,
            finding: None::<FindV>,
            backlog: Seq::<RecView>::empty(),
        }));
        let sr = sr_step(lines, 3 + i, Seq::<RecView>::empty(), l, ed);
        assert(cmp_spec(l, l) == CmpRes::CEqual);
        assert(sr.matched);
        assert(live.skip(i).drop_first() =~= live.skip(i + 1));
        lemma_feed_through(lines, live, i + 1, k, f0, a0, ed);
    }
}

/// Mutating exactly one file between create and audit is reported as
/// exactly one mismatch for that file, and nothing else.  (This asks that
/// the mutation really changed the file's digest list: digests are
/// functions of the contents alone, so a contents change that collides on
/// every configured algorithm would go unseen.)
pub proof fn lemma_audit_single_mismatch(
    h: HdrView,
    recs: Seq<RecView>,
    live: Seq<RecView>,
    k: int,
    ed: bool,
)
    requires
        hdr_wf(h),
        recs_wf(recs, ed),
        live.len() == recs.len(),
        0 <= k < recs.len(),
        forall|i: int| 0 <= i < live.len() && i != k ==> #[trigger] live[i] == recs[i],
        live[k].path == recs[k].path,
        live[k].digests != recs[k].digests,
    ensures
        ({
            let ls = split_lines(manifest_render(h, recs));
            let fed = feed_spec(
                ls,
                3,
                Seq::<RecView>::empty(),
                Seq::<FindV>::empty(),
                false,
                live,
                ed,
                false,
                false,
            );
            let co = check_spec(
                ls,
                fed.pos,
                fed.backlog,
                fed.finds,
                fed.audit_err,
                ed,
                false,
                fed.canceled,
            );
            &&& fed.err is None
            &&& co.err is None
            &&& co.finds == seq![FindV { kind: FindKind::Mismatch, path: live[k].path }]
            &&& co.result == true
        }),
{
    let ls = split_lines(manifest_render(h, recs));
    lemma_manifest_round_trip(h, recs, ed);
    assert(live.skip(0) =~= live);
    lemma_feed_through(ls, live, 0, k, Seq::<FindV>::empty(), false, ed);
    // the mismatching record
    let l = live[k];
    assert(live.skip(k)[0] == l);
    let so = handle_spec(
        ls,
        3 + k,
        Seq::<RecView>::empty(),
        Seq::<FindV>::empty(),
        false,
        l,
        ed,
        false,
        false,
    );
    assert(sb_step(Seq::<RecView>::empty(), l, 0) == (crate::checker::SbOut {
        matched: false,
        finding: None::<FindV>,
        backlog: Seq::<RecView>::empty(),
    }));
    let sr = sr_step(ls, 3 + k, Seq::<RecView>::empty(), l, ed);
    assert(line_rec(ls[3 + k]) == recs[k]);
    assert(cmp_spec(recs[k], l) == CmpRes::CEqual);
    assert(!sr.matched && sr.finding == Some(FindV { kind: FindKind::Mismatch, path: l.path }));
    let f1 = seq![FindV { kind: FindKind::Mismatch, path: l.path }];
    assert(Seq::<FindV>::empty().push(FindV { kind: FindKind::Mismatch, path: l.path }) =~= f1);
    assert(live.skip(k).drop_first() =~= live.skip(k + 1));
    lemma_feed_through(ls, live, k + 1, live.len() as int, f1, true, ed);
    assert(live.skip(live.len() as int) =~= Seq::<RecView>::empty());
}

/// A singleton backlog of a record unrelated to the live record survives
/// its rotation untouched.
pub proof fn lemma_sb_singleton_unrelated(b: RecView, l: RecView)
    requires
        cmp_spec(b, l) == CmpRes::CUnrelated,
    ensures
        sb_step(seq![b], l, 1) == (crate::checker::SbOut {
            matched: false,
            finding: None::<FindV>,
            backlog: seq![b],
        }),
{
    assert(seq![b][0] == b);
    assert(seq![b].drop_first().push(b) =~= seq![b]);
    assert(sb_step(seq![b].drop_first().push(b), l, 0) == (crate::checker::SbOut {
        matched: false,
        finding: None::<FindV>,
        backlog: seq![b],
    }));
}

/// Aligned processing with one leftover manifest record in the backlog,
/// unrelated to every live record.
pub proof fn lemma_feed_through_backlog(
    lines: Seq<Seq<char>>,
    live: Seq<RecView>,
    j: int,
    b: RecView,
    ed: bool,
)
    requires
        0 <= j <= live.len(),
        lines.len() == 3 + live.len() + 1,
        forall|i: int|
            j <= i < live.len() ==> !line_bad(#[trigger] lines[4 + i]) && line_rec(lines[4 + i])
                == live[i] && (line_is_empty_dir(lines[4 + i]) ==> ed),
        forall|i: int| j <= i < live.len() ==> cmp_spec(b, #[trigger] live[i]) == CmpRes::CUnrelated,
    ensures
        feed_spec(
            lines,
            4 + j,
            seq![b],
            Seq::<FindV>::empty(),
            false,
            live.skip(j),
            ed,
            false,
            false,
        ) == (StepOut {
            pos: lines.len() as int,
            backlog: seq![b],
            finds: Seq::<FindV>::empty(),
            audit_err: false,
            canceled: false,
            err: None,
        }),
    decreases live.len() - j,
{
    if j == live.len() {
        assert(live.skip(j) =~= Seq::<RecView>::empty());
    } else {
        let l = live[j];
        assert(live.skip(j)[0] == l);
        lemma_sb_singleton_unrelated(b, l);
        let sr = sr_step(lines, 4 + j, seq![b], l, ed);
        assert(line_rec(lines[4 + j]) == l);
        assert(cmp_spec(l, l) == CmpRes::CEqual);
        assert(sr.matched);
        assert(live.skip(j).drop_first() =~= live.skip(j + 1));
        lemma_feed_through_backlog(lines, live, j + 1, b, ed);
    }
}

/// Deleting exactly one file between create and audit is reported as
/// exactly one missing path, and nothing else.  All records here are file
/// records with pairwise distinct paths, as a create run over a tree of
/// files produces.
pub proof fn lemma_audit_missing(h: HdrView, recs: Seq<RecView>, k: int, ed: bool)
    requires
        hdr_wf(h),
        recs_wf(recs, ed),
        0 <= k < recs.len(),
        forall|i: int| 0 <= i < recs.len() ==> (#[trigger] recs[i].digests) is Some,
        forall|i: int, j: int|
            0 <= i < recs.len() && 0 <= j < recs.len() && i != j ==> (#[trigger] recs[i]).path != (
            #[trigger] recs[j]).path,
    ensures
        ({
            let ls = split_lines(manifest_render(h, recs));
            let live = recs.remove(k);
            let fed = feed_spec(
                ls,
                3,
                Seq::<RecView>::empty(),
                Seq::<FindV>::empty(),
                false,
                live,
                ed,
                false,
                false,
            );
            let co = check_spec(
                ls,
                fed.pos,
                fed.backlog,
                fed.finds,
                fed.audit_err,
                ed,
                false,
                fed.canceled,
            );
            &&& fed.err is None
            &&& co.err is None
            &&& co.finds == seq![FindV { kind: FindKind::NotFound, path: recs[k].path }]
            &&& co.result == true
        }),
{
    let ls = split_lines(manifest_render(h, recs));
    let live = recs.remove(k);
    lemma_manifest_round_trip(h, recs, ed);
    assert(live.len() == recs.len() - 1);
    assert(ls.len() == 3 + live.len() + 1);
    assert(live.skip(0) =~= live);
    assert forall|i: int| 0 <= i < k implies !line_bad(#[trigger] ls[3 + i]) && line_rec(ls[3 + i])
        == live[i] && (line_is_empty_dir(ls[3 + i]) ==> ed) by {
        assert(live[i] == recs[i]);
    }
    // up to the deleted record, everything aligns
    lemma_feed_through(ls, live, 0, k, Seq::<FindV>::empty(), false, ed);
    if k < live.len() {
        // the first live record past the gap buffers the deleted one
        let l = live[k];
        assert(l == recs[k + 1]);
        assert(live.skip(k)[0] == l);
        let so = handle_spec(
            ls,
            3 + k,
            Seq::<RecView>::empty(),
            Seq::<FindV>::empty(),
            false,
            l,
            ed,
            false,
            false,
        );
        assert(sb_step(Seq::<RecView>::empty(), l, 0) == (crate::checker::SbOut {
            matched: false,
            finding: None::<FindV>,
            backlog: Seq::<RecView>::empty(),
        }));
        let sr = sr_step(ls, 3 + k, Seq::<RecView>::empty(), l, ed);
        assert(line_rec(ls[3 + k]) == recs[k]);
        assert(cmp_spec(recs[k], l) == CmpRes::CUnrelated) by {
            assert(recs[k].path != recs[k + 1].path);
        }
        let ghost k1 = k + 1;
        assert(!line_bad(ls[3 + k1]) && line_rec(ls[3 + k1]) == recs[k1]);
        let sr2 = sr_step(ls, 3 + k1, seq![recs[k]], l, ed);
        assert(Seq::<RecView>::empty().push(recs[k]) =~= seq![recs[k]]);
        assert(cmp_spec(l, l) == CmpRes::CEqual);
        assert(sr2.matched && sr2.pos == 4 + k1 && sr2.backlog == seq![recs[k]]);
        assert(sr == sr2);
        assert(so.pos == 4 + k1 && so.backlog == seq![recs[k]]);
        // the rest aligns, carrying the buffered record along
        assert forall|i: int| k + 1 <= i < live.len() implies !line_bad(#[trigger] ls[4 + i])
            && line_rec(ls[4 + i]) == live[i] && (line_is_empty_dir(ls[4 + i]) ==> ed) by {
            let i1 = i + 1;
            assert(!line_bad(ls[3 + i1]) && line_rec(ls[3 + i1]) == recs[i1] && (line_is_empty_dir(
                ls[3 + i1],
            ) <==> recs[i1].digests is None));
            assert(live[i] == recs[i + 1]);
            assert(4 + i == 3 + i1);
        }
        assert forall|i: int| k + 1 <= i < live.len() implies cmp_spec(
            recs[k],
            #[trigger] live[i],
        ) == CmpRes::CUnrelated by {
            assert(live[i] == recs[i + 1]);
            assert(recs[k].path != recs[i + 1].path);
        }
        assert(live.skip(k).drop_first() =~= live.skip(k + 1));
        lemma_feed_through_backlog(ls, live, k + 1, recs[k], ed);
    } else {
        // the deleted record was the last one; nothing ever touches it
        assert(live.skip(k) =~= Seq::<RecView>::empty());
    }
    let fed = feed_spec(
        ls,
        3,
        Seq::<RecView>::empty(),
        Seq::<FindV>::empty(),
        false,
        live,
        ed,
        false,
        false,
    );
    if k < live.len() {
        assert(fed.pos == ls.len() && fed.backlog == seq![recs[k]] && fed.finds == Seq::<
            FindV,
        >::empty() && fed.audit_err == false && fed.canceled == false && fed.err is None);
    } else {
        // feed stops at the last data line, which the flush then buffers
        assert(fed.pos == 3 + k && fed.backlog == Seq::<RecView>::empty() && fed.finds == Seq::<
            FindV,
        >::empty() && fed.audit_err == false && fed.canceled == false && fed.err is None);
        assert(!line_bad(ls[3 + k]) && line_rec(ls[3 + k]) == recs[k]);
    }
    let fl = crate::checker::flush_spec(ls, fed.pos, fed.backlog, ed);
    if k < live.len() {
        assert(fed.pos == ls.len());
        assert(fl == (crate::checker::FlOut { err: None, backlog: seq![recs[k]], pos: fed.pos }));
    } else {
        // the flush buffers the one remaining data line
        assert(fed.pos == 3 + k && ls.len() == 4 + k);
        assert(!line_bad(ls[3 + k]) && line_rec(ls[3 + k]) == recs[k]);
        assert(recs[k].digests is Some);
        assert(!(line_is_empty_dir(ls[3 + k]) && !ed));
        assert(Seq::<RecView>::empty().push(recs[k]) =~= seq![recs[k]]);
        assert(crate::checker::flush_spec(ls, 4 + k, seq![recs[k]], ed)
            == (crate::checker::FlOut { err: None, backlog: seq![recs[k]], pos: 4 + k }));
        assert(fl == (crate::checker::FlOut { err: None, backlog: seq![recs[k]], pos: 4 + k }));
    }
    let f1 = seq![FindV { kind: FindKind::NotFound, path: recs[k].path }];
    assert(Seq::<FindV>::empty().push(FindV { kind: FindKind::NotFound, path: recs[k].path })
        =~= f1);
    assert(seq![recs[k]][0] == recs[k]);
    assert(seq![recs[k]].drop_first() =~= Seq::<RecView>::empty());
    assert(crate::checker::drain_spec(
        Seq::<RecView>::empty(),
        f1,
        true,
        false,
        false,
    ) == (crate::checker::DrOut { finds: f1, result: true, canceled: false }));
    assert(crate::checker::drain_spec(seq![recs[k]], Seq::<FindV>::empty(), false, false, false)
        == (crate::checker::DrOut { finds: f1, result: true, canceled: false }));
}

/// Adding exactly one file between create and audit is reported as
/// exactly one extra path, and nothing else.
/// Searching the manifest for a record unrelated to every remaining line
/// reads everything into the backlog and reports the record as extra.
proof fn lemma_sr_exhausts(
    lines: Seq<Seq<char>>,
    pos: int,
    bl: Seq<RecView>,
    l: RecView,
    ed: bool,
)
    requires
        0 <= pos <= lines.len(),
        forall|u: int|
            pos <= u < lines.len() ==> !line_bad(#[trigger] lines[u]) && (line_is_empty_dir(
                lines[u],
            ) ==> ed) && cmp_spec(line_rec(lines[u]), l) == CmpRes::CUnrelated,
    ensures
        sr_step(lines, pos, bl, l, ed) == (crate::checker::SrOut {
            matched: false,
            finding: Some(FindV { kind: FindKind::Extra, path: l.path }),
            err: None,
            backlog: bl + Seq::new((lines.len() - pos) as nat, |u: int| line_rec(lines[pos + u])),
            pos: lines.len() as int,
        }),
    decreases lines.len() - pos,
{
    if pos == lines.len() {
        assert(bl + Seq::new(0, |u: int| line_rec(lines[pos + u])) =~= bl);
    } else {
        let m = line_rec(lines[pos]);
        lemma_sr_exhausts(lines, pos + 1, bl.push(m), l, ed);
        assert(bl.push(m) + Seq::new(
            (lines.len() - pos - 1) as nat,
            |u: int| line_rec(lines[pos + 1 + u]),
        ) =~= bl + Seq::new((lines.len() - pos) as nat, |u: int| line_rec(lines[pos + u])));
    }
}

/// When the backlog holds exactly the remaining live records in order,
/// every one of them matches the backlog head and is accepted.
proof fn lemma_feed_backlog_aligned(
    lines: Seq<Seq<char>>,
    p: int,
    live: Seq<RecView>,
    j: int,
    f0: Seq<FindV>,
    a0: bool,
    ed: bool,
)
    requires
        0 <= j <= live.len(),
    ensures
        feed_spec(lines, p, live.skip(j), f0, a0, live.skip(j), ed, false, false) == (StepOut {
            pos: p,
            backlog: Seq::<RecView>::empty(),
            finds: f0,
            audit_err: a0,
            canceled: false,
            err: None,
        }),
    decreases live.len() - j,
{
    let b = live.skip(j);
    if j == live.len() {
        assert(b =~= Seq::<RecView>::empty());
    } else {
        let l = b[0];
        assert(cmp_spec(l, l) == CmpRes::CEqual);
        assert(sb_step(b, l, b.len() as nat) == (crate::checker::SbOut {
            matched: true,
            finding: None::<FindV>,
            backlog: b.drop_first(),
        }));
        assert(b.drop_first() =~= live.skip(j + 1));
        lemma_feed_backlog_aligned(lines, p, live, j + 1, f0, a0, ed);
    }
}

/// A backlog whose entry at `k` is the live record itself, every other
/// entry unrelated, rotates up to `k`, accepts the record, and keeps the
/// rest rotated.
proof fn lemma_sb_match_at(bl: Seq<RecView>, l: RecView, k: int, n: nat)
    requires
        0 <= k < n <= bl.len(),
        bl[k] == l,
        forall|i: int| 0 <= i < bl.len() && i != k ==> cmp_spec(#[trigger] bl[i], l)
            == CmpRes::CUnrelated,
    ensures
        sb_step(bl, l, n) == (crate::checker::SbOut {
            matched: true,
            finding: None::<FindV>,
            backlog: bl.subrange(k + 1, bl.len() as int) + bl.subrange(0, k),
        }),
    decreases k,
{
    if k == 0 {
        assert(cmp_spec(bl[0], l) == CmpRes::CEqual);
        assert(bl.drop_first() =~= bl.subrange(1, bl.len() as int) + bl.subrange(0, 0));
    } else {
        let r = bl.drop_first().push(bl[0]);
        assert(r[k - 1] == bl[k]);
        assert forall|i: int| 0 <= i < r.len() && i != k - 1 implies cmp_spec(#[trigger] r[i], l)
            == CmpRes::CUnrelated by {
            if i < r.len() - 1 {
                assert(r[i] == bl[i + 1]);
            } else {
                assert(r[i] == bl[0]);
            }
        }
        lemma_sb_match_at(r, l, k - 1, (n - 1) as nat);
        assert(r.subrange(k, r.len() as int) + r.subrange(0, k - 1) =~= bl.subrange(
            k + 1,
            bl.len() as int,
        ) + bl.subrange(0, k)) by {
            assert forall|i: int|
                0 <= i < r.len() - 1 implies #[trigger] (r.subrange(k, r.len() as int)
                + r.subrange(0, k - 1))[i] == (bl.subrange(k + 1, bl.len() as int) + bl.subrange(
                0,
                k,
            ))[i] by {
                if i < r.len() - k {
                    if k + i < r.len() - 1 {
                        assert(r[k + i] == bl[k + i + 1]);
                    } else {
                        assert(r[k + i] == bl[0]);
                    }
                } else {
                    assert(r[i - (r.len() - k) + 1 - 1] == bl[i - (r.len() - k) + 1]);
                }
            }
        }
    }
}

/// A backlog whose entries are all unrelated to the live record rotates
/// through `n` of them and reports no match, the first `n` entries moved
/// to the back.
proof fn lemma_sb_no_match(bl: Seq<RecView>, l: RecView, n: nat)
    requires
        n <= bl.len(),
        forall|i: int| 0 <= i < bl.len() ==> cmp_spec(#[trigger] bl[i], l) == CmpRes::CUnrelated,
    ensures
        sb_step(bl, l, n) == (crate::checker::SbOut {
            matched: false,
            finding: None::<FindV>,
            backlog: bl.subrange(n as int, bl.len() as int) + bl.subrange(0, n as int),
        }),
    decreases n,
{
    if n == 0 || bl.len() == 0 {
        assert(bl.subrange(n as int, bl.len() as int) + bl.subrange(0, n as int) =~= bl);
    } else {
        let r = bl.drop_first().push(bl[0]);
        assert forall|i: int| 0 <= i < r.len() implies cmp_spec(#[trigger] r[i], l)
            == CmpRes::CUnrelated by {
            if i < r.len() - 1 {
                assert(r[i] == bl[i + 1]);
            } else {
                assert(r[i] == bl[0]);
            }
        }
        lemma_sb_no_match(r, l, (n - 1) as nat);
        assert(r.subrange(n - 1, r.len() as int) + r.subrange(0, n - 1) =~= bl.subrange(
            n as int,
            bl.len() as int,
        ) + bl.subrange(0, n as int)) by {
            assert forall|i: int|
                0 <= i < r.len() implies #[trigger] (r.subrange(n - 1, r.len() as int)
                + r.subrange(0, n - 1))[i] == (bl.subrange(n as int, bl.len() as int)
                + bl.subrange(0, n as int))[i] by {
                if i < r.len() - n + 1 {
                    if n - 1 + i < r.len() - 1 {
                        assert(r[n - 1 + i] == bl[n + i]);
                    } else {
                        assert(r[n - 1 + i] == bl[0]);
                    }
                } else {
                    assert(r[i - (r.len() - n + 1)] == bl[i - (r.len() - n + 1) + 1]);
                }
            }
        }
    }
}

/// Searching the manifest for a record that first appears at line
/// `pos + t`, everything before it unrelated, buffers the scanned prefix
/// and accepts the record.
proof fn lemma_sr_match_at(
    lines: Seq<Seq<char>>,
    pos: int,
    bl: Seq<RecView>,
    l: RecView,
    ed: bool,
    t: int,
)
    requires
        0 <= t,
        0 <= pos,
        pos + t < lines.len(),
        forall|u: int|
            pos <= u <= pos + t ==> !line_bad(#[trigger] lines[u]) && (line_is_empty_dir(lines[u])
                ==> ed),
        line_rec(lines[pos + t]) == l,
        forall|u: int|
            pos <= u < pos + t ==> cmp_spec(line_rec(#[trigger] lines[u]), l)
                == CmpRes::CUnrelated,
    ensures
        sr_step(lines, pos, bl, l, ed) == (crate::checker::SrOut {
            matched: true,
            finding: None::<FindV>,
            err: None,
            backlog: bl + Seq::new(t as nat, |u: int| line_rec(lines[pos + u])),
            pos: pos + t + 1,
        }),
    decreases t,
{
    if t == 0 {
        assert(cmp_spec(line_rec(lines[pos]), l) == CmpRes::CEqual);
        assert(bl + Seq::new(0, |u: int| line_rec(lines[pos + u])) =~= bl);
    } else {
        let m = line_rec(lines[pos]);
        lemma_sr_match_at(lines, pos + 1, bl.push(m), l, ed, t - 1);
        assert(bl.push(m) + Seq::new(
            (t - 1) as nat,
            |u: int| line_rec(lines[pos + 1 + u]),
        ) =~= bl + Seq::new(t as nat, |u: int| line_rec(lines[pos + u])));
    }
}

/// A single record the manifest does not know, wherever it turns up in
/// the live stream, is reported as exactly one extra path; the audit
/// fails and nothing else is reported.  The stray record is a file
/// unrelated to every manifest record.
pub proof fn lemma_audit_extra(h: HdrView, recs: Seq<RecView>, x: RecView, k: int, ed: bool)
    requires
        hdr_wf(h),
        recs_wf(recs, ed),
        0 <= k <= recs.len(),
        forall|u: int| 0 <= u < recs.len() ==> cmp_spec(#[trigger] recs[u], x) == CmpRes::CUnrelated,
    ensures
        ({
            let ls = split_lines(manifest_render(h, recs));
            let live = recs.insert(k, x);
            let fed = feed_spec(
                ls,
                3,
                Seq::<RecView>::empty(),
                Seq::<FindV>::empty(),
                false,
                live,
                ed,
                false,
                false,
            );
            let co = check_spec(
                ls,
                fed.pos,
                fed.backlog,
                fed.finds,
                fed.audit_err,
                ed,
                false,
                fed.canceled,
            );
            &&& fed.err is None
            &&& co.err is None
            &&& co.finds == seq![FindV { kind: FindKind::Extra, path: x.path }]
            &&& co.result == true
        }),
{
    let ls = split_lines(manifest_render(h, recs));
    let live = recs.insert(k, x);
    lemma_manifest_round_trip(h, recs, ed);
    recs.insert_ensures(k, x);
    assert(live.skip(0) =~= live);
    let n = recs.len() as int;
    // up to the stray record, everything aligns with the manifest
    assert forall|i: int| 0 <= i < k implies !line_bad(#[trigger] ls[3 + i]) && line_rec(ls[3 + i])
        == live[i] && (line_is_empty_dir(ls[3 + i]) ==> ed) by {
        assert(live[i] == recs[i]);
    }
    lemma_feed_through(ls, live, 0, k, Seq::<FindV>::empty(), false, ed);
    // the stray record exhausts the manifest remainder into the backlog
    assert(live[k] == x);
    assert(live.skip(k)[0] == x);
    let so = handle_spec(
        ls,
        3 + k,
        Seq::<RecView>::empty(),
        Seq::<FindV>::empty(),
        false,
        x,
        ed,
        false,
        false,
    );
    assert(sb_step(Seq::<RecView>::empty(), x, 0) == (crate::checker::SbOut {
        matched: false,
        finding: None::<FindV>,
        backlog: Seq::<RecView>::empty(),
    }));
    assert forall|u: int| 3 + k <= u < ls.len() implies !line_bad(#[trigger] ls[u]) && (
    line_is_empty_dir(ls[u]) ==> ed) && cmp_spec(line_rec(ls[u]), x) == CmpRes::CUnrelated by {
        let i = u - 3;
        assert(!line_bad(ls[3 + i]) && line_rec(ls[3 + i]) == recs[i] && (line_is_empty_dir(
            ls[3 + i],
        ) <==> recs[i].digests is None));
    }
    lemma_sr_exhausts(ls, 3 + k, Seq::<RecView>::empty(), x, ed);
    let tail = Seq::new((ls.len() - 3 - k) as nat, |u: int| line_rec(ls[3 + k + u]));
    assert(tail =~= recs.skip(k)) by {
        assert forall|u: int| 0 <= u < tail.len() implies tail[u] == recs.skip(k)[u] by {
            let i = k + u;
            assert(line_rec(ls[3 + i]) == recs[i]);
            assert(ls[3 + k + u] == ls[3 + i]);
        }
    }
    let f1 = seq![FindV { kind: FindKind::Extra, path: x.path }];
    assert(Seq::<FindV>::empty().push(FindV { kind: FindKind::Extra, path: x.path }) =~= f1);
    assert(Seq::<RecView>::empty() + tail =~= recs.skip(k));
    assert(so.pos == ls.len() && so.backlog == recs.skip(k) && so.finds == f1 && so.audit_err
        == true && so.canceled == false && so.err is None);
    // every later live record matches the backlog head
    assert(live.skip(k).drop_first() =~= live.skip(k + 1));
    assert(live.skip(k + 1) =~= recs.skip(k)) by {
        assert forall|u: int| 0 <= u < recs.skip(k).len() implies live.skip(k + 1)[u] == recs.skip(
            k,
        )[u] by {
            let i = k + u;
            assert(live[i + 1] == recs[i]);
        }
    }
    lemma_feed_backlog_aligned(ls, ls.len() as int, recs, k, f1, true, ed);
    let fed = feed_spec(
        ls,
        3,
        Seq::<RecView>::empty(),
        Seq::<FindV>::empty(),
        false,
        live,
        ed,
        false,
        false,
    );
    assert(fed.pos == ls.len() && fed.backlog == Seq::<RecView>::empty() && fed.finds == f1
        && fed.audit_err == true && fed.canceled == false && fed.err is None);
}

/// Whether some live record at or after position `j` still carries the
/// manifest record at index `i`.
pub open spec fn pending(perm: Seq<int>, j: int, i: int) -> bool {
    exists|u: int| j <= u < perm.len() && #[trigger] perm[u] == i
}

/// The comparator's invariant while consuming a permuted live stream of a
/// clean manifest: the backlog holds distinct already-read records that
/// are still awaited, everything read and matched is behind the cursor,
/// and every record beyond the cursor is still awaited.  Each live record
/// is then accepted — from the backlog after a rotation, or from the
/// manifest after buffering the lines before it — and nothing is ever
/// reported.
#[verifier::rlimit(100)]
proof fn lemma_feed_any_order(
    ls: Seq<Seq<char>>,
    recs: Seq<RecView>,
    perm: Seq<int>,
    live: Seq<RecView>,
    j: int,
    c: int,
    bv: Seq<RecView>,
    f0: Seq<FindV>,
    a0: bool,
    ed: bool,
)
    requires
        ls.len() == 3 + recs.len(),
        forall|i: int|
            0 <= i < recs.len() ==> !line_bad(#[trigger] ls[3 + i]) && line_rec(ls[3 + i])
                == recs[i] && (line_is_empty_dir(ls[3 + i]) ==> ed),
        forall|i1: int, i2: int|
            0 <= i1 < recs.len() && 0 <= i2 < recs.len() && i1 != i2 ==> cmp_spec(
                #[trigger] recs[i1],
                #[trigger] recs[i2],
            ) == CmpRes::CUnrelated,
        perm.len() == recs.len(),
        forall|u: int| 0 <= u < perm.len() ==> 0 <= #[trigger] perm[u] < recs.len(),
        forall|u1: int, u2: int|
            0 <= u1 < perm.len() && 0 <= u2 < perm.len() && u1 != u2 ==> #[trigger] perm[u1] != (
            #[trigger] perm[u2]),
        live.len() == recs.len(),
        forall|u: int| 0 <= u < live.len() ==> #[trigger] live[u] == recs[perm[u]],
        0 <= j <= live.len(),
        0 <= c <= recs.len(),
        forall|t: int|
            0 <= t < bv.len() ==> exists|i: int| 0 <= i < c && #[trigger] bv[t] == recs[i],
        forall|t1: int, t2: int|
            0 <= t1 < bv.len() && 0 <= t2 < bv.len() && t1 != t2 ==> #[trigger] bv[t1] != (
            #[trigger] bv[t2]),
        forall|i: int|
            0 <= i < recs.len() ==> (pending(perm, j, i) <==> (bv.contains(#[trigger] recs[i]) || c
                <= i)),
    ensures
        feed_spec(ls, 3 + c, bv, f0, a0, live.skip(j), ed, false, false) == (StepOut {
            pos: 3 + recs.len() as int,
            backlog: Seq::<RecView>::empty(),
            finds: f0,
            audit_err: a0,
            canceled: false,
            err: None,
        }),
    decreases live.len() - j,
{
    // two records at distinct indices are distinct (they are unrelated)
    assert forall|i1: int, i2: int|
        0 <= i1 < recs.len() && 0 <= i2 < recs.len() && i1 != i2 implies #[trigger] recs[i1] != (
    #[trigger] recs[i2]) by {
        if recs[i1] == recs[i2] {
            assert(cmp_spec(recs[i1], recs[i2]) == CmpRes::CEqual);
        }
    }
    if j == live.len() {
        // nothing is awaited: the cursor reached the end and the backlog drained
        assert(c == recs.len()) by {
            if c < recs.len() {
                assert(pending(perm, j, c));
            }
        }
        assert(bv =~= Seq::<RecView>::empty()) by {
            if bv.len() > 0 {
                let i = choose|i: int| 0 <= i < c && bv[0] == recs[i];
                assert(bv.contains(recs[i]));
                assert(pending(perm, j, i));
            }
        }
    } else {
        let p = perm[j];
        let l = live[j];
        assert(l == recs[p]);
        assert(live.skip(j)[0] == l);
        assert(pending(perm, j, p));
        if bv.contains(recs[p]) {
            // the record is waiting in the backlog: the rotation finds it
            let t = choose|t: int| 0 <= t < bv.len() && bv[t] == recs[p];
            let i_of = |t2: int| choose|i: int| 0 <= i < c && bv[t2] == recs[i];
            assert forall|t2: int| 0 <= t2 < bv.len() && t2 != t implies cmp_spec(
                #[trigger] bv[t2],
                l,
            ) == CmpRes::CUnrelated by {
                let i = choose|i: int| 0 <= i < c && bv[t2] == recs[i];
                assert(bv[t2] == recs[i]);
                if i == p {
                    assert(bv[t2] == bv[t]);
                }
            }
            lemma_sb_match_at(bv, l, t, bv.len() as nat);
            let bv2 = bv.subrange(t + 1, bv.len() as int) + bv.subrange(0, t);
            // the new backlog is the old one without the matched record
            assert forall|t2: int| 0 <= t2 < bv2.len() implies exists|i: int|
                0 <= i < c && #[trigger] bv2[t2] == recs[i] by {
                if t2 < bv.len() - t - 1 {
                    assert(bv2[t2] == bv[t + 1 + t2]);
                } else {
                    assert(bv2[t2] == bv[t2 - (bv.len() - t - 1)]);
                }
            }
            assert forall|t1: int, t2: int|
                0 <= t1 < bv2.len() && 0 <= t2 < bv2.len() && t1 != t2 implies #[trigger] bv2[t1]
                != (#[trigger] bv2[t2]) by {
                if t1 < bv.len() - t - 1 {
                    assert(bv2[t1] == bv[t + 1 + t1]);
                } else {
                    assert(bv2[t1] == bv[t1 - (bv.len() - t - 1)]);
                }
                if t2 < bv.len() - t - 1 {
                    assert(bv2[t2] == bv[t + 1 + t2]);
                } else {
                    assert(bv2[t2] == bv[t2 - (bv.len() - t - 1)]);
                }
            }
            assert forall|r: RecView| true implies (bv2.contains(r) <==> (bv.contains(r) && r
                != bv[t])) by {
                if bv2.contains(r) {
                    let t2 = choose|t2: int| 0 <= t2 < bv2.len() && bv2[t2] == r;
                    if t2 < bv.len() - t - 1 {
                        assert(bv[t + 1 + t2] == r);
                    } else {
                        assert(bv[t2 - (bv.len() - t - 1)] == r);
                    }
                }
                if bv.contains(r) && r != bv[t] {
                    let t2 = choose|t2: int| 0 <= t2 < bv.len() && bv[t2] == r;
                    if t2 > t {
                        assert(bv2[t2 - t - 1] == r);
                    } else {
                        assert(bv2[bv.len() - t - 1 + t2] == r);
                    }
                }
            }
            assert forall|i: int|
                0 <= i < recs.len() implies (pending(perm, j + 1, i) <==> (bv2.contains(
                #[trigger] recs[i],
            ) || c <= i)) by {
                if i == p {
                    assert(!pending(perm, j + 1, p)) by {
                        if pending(perm, j + 1, p) {
                            let u = choose|u: int|
                                j + 1 <= u < perm.len() && #[trigger] perm[u] == p;
                            assert(perm[u] == perm[j]);
                        }
                    }
                    let ip = choose|i2: int| 0 <= i2 < c && bv[t] == recs[i2];
                    assert(recs[ip] == recs[p]);
                    assert(p < c);
                    assert(!bv2.contains(recs[p]));
                } else {
                    assert(pending(perm, j + 1, i) <==> pending(perm, j, i)) by {
                        if pending(perm, j, i) {
                            let u = choose|u: int| j <= u < perm.len() && #[trigger] perm[u] == i;
                            assert(u != j);
                            assert(pending(perm, j + 1, i));
                        }
                        if pending(perm, j + 1, i) {
                            let u = choose|u: int|
                                j + 1 <= u < perm.len() && #[trigger] perm[u] == i;
                            assert(pending(perm, j, i));
                        }
                    }
                    assert(bv2.contains(recs[i]) <==> bv.contains(recs[i]));
                }
            }
            assert(live.skip(j).drop_first() =~= live.skip(j + 1));
            lemma_feed_any_order(ls, recs, perm, live, j + 1, c, bv2, f0, a0, ed);
        } else {
            // the record is still unread: the reader scans down to its line
            assert(c <= p);
            assert forall|t2: int| 0 <= t2 < bv.len() implies cmp_spec(#[trigger] bv[t2], l)
                == CmpRes::CUnrelated by {
                let i = choose|i: int| 0 <= i < c && bv[t2] == recs[i];
                assert(bv[t2] == recs[i]);
                if i == p {
                    assert(bv.contains(recs[p]));
                }
            }
            lemma_sb_no_match(bv, l, bv.len() as nat);
            assert(bv.subrange(bv.len() as int, bv.len() as int) + bv.subrange(
                0,
                bv.len() as int,
            ) =~= bv);
            assert forall|u: int|
                3 + c <= u <= 3 + p implies !line_bad(#[trigger] ls[u]) && (line_is_empty_dir(
                ls[u],
            ) ==> ed) by {
                let i = u - 3;
                assert(!line_bad(ls[3 + i]) && line_rec(ls[3 + i]) == recs[i]);
            }
            assert forall|u: int|
                3 + c <= u < 3 + p implies cmp_spec(line_rec(#[trigger] ls[u]), l)
                == CmpRes::CUnrelated by {
                let i = u - 3;
                assert(line_rec(ls[3 + i]) == recs[i]);
            }
            assert(line_rec(ls[3 + p]) == recs[p]);
            lemma_sr_match_at(ls, 3 + c, bv, l, ed, p - c);
            let tail = Seq::new((p - c) as nat, |u: int| line_rec(ls[3 + c + u]));
            assert(tail =~= recs.subrange(c, p)) by {
                assert forall|u: int| 0 <= u < tail.len() implies tail[u] == recs.subrange(c, p)[u]
                    by {
                    let i = c + u;
                    assert(line_rec(ls[3 + i]) == recs[i]);
                    assert(ls[3 + c + u] == ls[3 + i]);
                }
            }
            let bv2 = bv + recs.subrange(c, p);
            let c2 = p + 1;
            assert forall|t2: int| 0 <= t2 < bv2.len() implies exists|i: int|
                0 <= i < c2 && #[trigger] bv2[t2] == recs[i] by {
                if t2 < bv.len() {
                    let i = choose|i: int| 0 <= i < c && bv[t2] == recs[i];
                    assert(bv2[t2] == recs[i]);
                } else {
                    assert(bv2[t2] == recs[c + (t2 - bv.len())]);
                }
            }
            assert forall|t1: int, t2: int|
                0 <= t1 < bv2.len() && 0 <= t2 < bv2.len() && t1 != t2 implies #[trigger] bv2[t1]
                != (#[trigger] bv2[t2]) by {
                if t1 < bv.len() && t2 < bv.len() {
                } else if t1 >= bv.len() && t2 >= bv.len() {
                    assert(bv2[t1] == recs[c + (t1 - bv.len())]);
                    assert(bv2[t2] == recs[c + (t2 - bv.len())]);
                } else if t1 < bv.len() {
                    let i = choose|i: int| 0 <= i < c && bv[t1] == recs[i];
                    assert(bv2[t1] == recs[i]);
                    assert(bv2[t2] == recs[c + (t2 - bv.len())]);
                } else {
                    let i = choose|i: int| 0 <= i < c && bv[t2] == recs[i];
                    assert(bv2[t2] == recs[i]);
                    assert(bv2[t1] == recs[c + (t1 - bv.len())]);
                }
            }
            assert forall|r: RecView| true implies (bv2.contains(r) <==> (bv.contains(r) || (
            exists|i: int| c <= i < p && r == #[trigger] recs[i]))) by {
                if bv2.contains(r) {
                    let t2 = choose|t2: int| 0 <= t2 < bv2.len() && bv2[t2] == r;
                    if t2 < bv.len() {
                        assert(bv[t2] == r);
                    } else {
                        assert(recs[c + (t2 - bv.len())] == r);
                    }
                }
                if bv.contains(r) {
                    let t2 = choose|t2: int| 0 <= t2 < bv.len() && bv[t2] == r;
                    assert(bv2[t2] == r);
                }
                if exists|i: int| c <= i < p && r == #[trigger] recs[i] {
                    let i = choose|i: int| c <= i < p && r == recs[i];
                    assert(bv2[bv.len() + (i - c)] == r);
                }
            }
            assert forall|i: int|
                0 <= i < recs.len() implies (pending(perm, j + 1, i) <==> (bv2.contains(
                #[trigger] recs[i],
            ) || c2 <= i)) by {
                if i == p {
                    assert(!pending(perm, j + 1, p)) by {
                        if pending(perm, j + 1, p) {
                            let u = choose|u: int|
                                j + 1 <= u < perm.len() && #[trigger] perm[u] == p;
                            assert(perm[u] == perm[j]);
                        }
                    }
                    assert(!bv2.contains(recs[p])) by {
                        if exists|i2: int| c <= i2 < p && recs[p] == #[trigger] recs[i2] {
                            let i2 = choose|i2: int| c <= i2 < p && recs[p] == recs[i2];
                            assert(recs[i2] != recs[p]);
                        }
                    }
                } else {
                    assert(pending(perm, j + 1, i) <==> pending(perm, j, i)) by {
                        if pending(perm, j, i) {
                            let u = choose|u: int| j <= u < perm.len() && #[trigger] perm[u] == i;
                            assert(u != j);
                            assert(pending(perm, j + 1, i));
                        }
                        if pending(perm, j + 1, i) {
                            let u = choose|u: int|
                                j + 1 <= u < perm.len() && #[trigger] perm[u] == i;
                            assert(pending(perm, j, i));
                        }
                    }
                    if c <= i < p {
                        assert(bv2.contains(recs[i]));
                        assert(pending(perm, j, i));
                    }
                    if bv.contains(recs[i]) {
                        assert(bv2.contains(recs[i]));
                    }
                    if bv2.contains(recs[i]) && !bv.contains(recs[i]) {
                        let i2 = choose|i2: int| c <= i2 < p && recs[i] == #[trigger] recs[i2];
                        assert(i == i2);
                    }
                }
            }
            assert(live.skip(j).drop_first() =~= live.skip(j + 1));
            lemma_feed_any_order(ls, recs, perm, live, j + 1, c2, bv2, f0, a0, ed);
        }
    }
}

/// Auditing a clean manifest's records in any order reports nothing and
/// succeeds: the backlog absorbs every reordering.  `perm` names the
/// order the live records arrive in; the records are pairwise unrelated,
/// as the records of one create run over a tree are.
pub proof fn lemma_audit_reordered_clean(
    h: HdrView,
    recs: Seq<RecView>,
    perm: Seq<int>,
    live: Seq<RecView>,
    ed: bool,
)
    requires
        hdr_wf(h),
        recs_wf(recs, ed),
        forall|i1: int, i2: int|
            0 <= i1 < recs.len() && 0 <= i2 < recs.len() && i1 != i2 ==> cmp_spec(
                #[trigger] recs[i1],
                #[trigger] recs[i2],
            ) == CmpRes::CUnrelated,
        perm.len() == recs.len(),
        forall|u: int| 0 <= u < perm.len() ==> 0 <= #[trigger] perm[u] < recs.len(),
        forall|u1: int, u2: int|
            0 <= u1 < perm.len() && 0 <= u2 < perm.len() && u1 != u2 ==> #[trigger] perm[u1] != (
            #[trigger] perm[u2]),
        forall|i: int| 0 <= i < recs.len() ==> #[trigger] pending(perm, 0, i),
        live.len() == recs.len(),
        forall|u: int| 0 <= u < live.len() ==> #[trigger] live[u] == recs[perm[u]],
    ensures
        ({
            let ls = split_lines(manifest_render(h, recs));
            let fed = feed_spec(
                ls,
                3,
                Seq::<RecView>::empty(),
                Seq::<FindV>::empty(),
                false,
                live,
                ed,
                false,
                false,
            );
            let co = check_spec(
                ls,
                fed.pos,
                fed.backlog,
                fed.finds,
                fed.audit_err,
                ed,
                false,
                fed.canceled,
            );
            &&& fed.err is None
            &&& co.err is None
            &&& co.finds == Seq::<FindV>::empty()
            &&& co.result == false
        }),
{
    let ls = split_lines(manifest_render(h, recs));
    lemma_manifest_round_trip(h, recs, ed);
    assert forall|i: int|
        0 <= i < recs.len() implies (pending(perm, 0, i) <==> (Seq::<RecView>::empty().contains(
        #[trigger] recs[i],
    ) || 0 <= i)) by {
        assert(pending(perm, 0, i));
    }
    assert(live.skip(0) =~= live);
    lemma_feed_any_order(
        ls,
        recs,
        perm,
        live,
        0,
        0,
        Seq::<RecView>::empty(),
        Seq::<FindV>::empty(),
        false,
        ed,
    );
}

/// Auditing a tree against the manifest its own records produced reports
/// nothing and succeeds.
pub proof fn lemma_create_then_audit_clean(
    h: HdrView,
    recs: Seq<RecView>,
    ed: bool,
    early: bool,
)
    requires
        hdr_wf(h),
        recs_wf(recs, ed),
    ensures
        ({
            let ls = split_lines(manifest_render(h, recs));
            let fed = feed_spec(
                ls,
                3,
                Seq::<RecView>::empty(),
                Seq::<FindV>::empty(),
                false,
                recs,
                ed,
                early,
                false,
            );
            let co = check_spec(
                ls,
                fed.pos,
                fed.backlog,
                fed.finds,
                fed.audit_err,
                ed,
                early,
                fed.canceled,
            );
            &&& header_ok(ls)
            &&& header_algs(ls) == h.algs
            &&& fed.err is None
            &&& co.err is None
            &&& co.finds == Seq::<FindV>::empty()
            &&& co.result == false
        }),
{
    let ls = split_lines(manifest_render(h, recs));
    lemma_manifest_round_trip(h, recs, ed);
    assert(recs.skip(0) =~= recs);
    lemma_feed_aligned(ls, recs, 0, Seq::<FindV>::empty(), false, ed, early);
    let fed = feed_spec(
        ls,
        3,
        Seq::<RecView>::empty(),
        Seq::<FindV>::empty(),
        false,
        recs,
        ed,
        early,
        false,
    );
    assert(fed.pos == ls.len());
}

} // verus!
